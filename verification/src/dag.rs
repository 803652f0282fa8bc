//! The Gene-Ontology term hierarchy: a directed acyclic graph of terms with
//! weighted child-to-parent edges, semantic-value propagation, lowest common
//! ancestors with path reconstruction, and the term and protein similarity
//! scores built on them.
//!
//! Acyclicity is carried as a witness: every term holds a level that strictly
//! increases along parent edges, so recursions over the hierarchy terminate.

use crate::fixed::{Ratio, SCALE};
use crate::graph::{
    has_key, key_at, label_views, nodup_keys, weight_of, Graph, MAX_EDGE_WEIGHT,
};
use vstd::prelude::*;

verus! {

/// Largest supported term count.
pub const MAX_TERM_COUNT: usize = 65_535;

/// The term hierarchy, its protein annotations, and the similarity caches.
#[derive(Debug)]
pub struct Dag {
    pub term_count: usize,
    pub parents: Vec<Vec<(usize, u64)>>,
    pub children: Vec<Vec<usize>>,
    pub topo_pos: Vec<usize>,
    pub order: Vec<usize>,
    pub order_inv: Vec<usize>,
    pub protein_go: Vec<(String, Vec<usize>)>,
    pub sim_cache: Vec<((usize, usize), u64)>,
    pub sim_child_cache: Vec<((usize, usize), u64)>,
}

/// The structural content of the hierarchy: term count, parent lists, child
/// lists and levels.  The similarity caches are not part of it, so caching
/// never changes what the similarity functions mean.
pub struct DagView {
    pub n: int,
    pub ps: Seq<Seq<(usize, u64)>>,
    pub cs: Seq<Seq<usize>>,
    pub pos: Seq<usize>,
}

/// A well-formed structure: lists sized to the term count, unique parent
/// keys in range with bounded weights, levels strictly increasing along
/// parent edges and bounded, and child lists that exactly invert the parent
/// lists.
pub open spec fn dv_wf(v: DagView) -> bool {
    &&& v.ps.len() == v.n
    &&& v.cs.len() == v.n
    &&& v.pos.len() == v.n
    &&& 0 <= v.n <= MAX_TERM_COUNT
    &&& (forall|t: int| 0 <= t < v.n ==> nodup_keys(#[trigger] v.ps[t]))
    &&& (forall|t: int, k: int|
        0 <= t < v.n && 0 <= k < v.ps[t].len() ==> ((#[trigger] v.ps[t][k]).0 < v.n
            && v.ps[t][k].1 <= SCALE))
    &&& (forall|t: int, k: int|
        0 <= t < v.n && 0 <= k < v.ps[t].len() ==> (v.pos[t] as int) < v.pos[(
        #[trigger] v.ps[t][k]).0 as int] as int)
    &&& (forall|t: int| 0 <= t < v.n ==> ((#[trigger] v.pos[t]) as int) <= v.n)
    &&& (forall|t: int| 0 <= t < v.n ==> (#[trigger] v.cs[t]).no_duplicates())
    &&& (forall|t: int, k: int|
        0 <= t < v.n && 0 <= k < v.cs[t].len() ==> (#[trigger] v.cs[t][k]) < v.n)
    &&& (forall|t: int, k: int|
        0 <= t < v.n && 0 <= k < v.cs[t].len() ==> (v.pos[(#[trigger] v.cs[t][k]) as int] as int)
            < v.pos[t] as int)
    &&& (forall|u: int, x: usize|
        0 <= u < v.n && x < v.n ==> ((#[trigger] v.cs[u].contains(x)) <==> has_key(
            v.ps[x as int],
            u as usize,
        )))
}

/// Whether term `u` is an ancestor of `t` or `t` itself: some chain of
/// parent edges leads from `t` up to `u`.
pub open spec fn reach(v: DagView, t: usize, u: usize) -> bool
    decreases v.pos[u as int], v.cs[u as int].len() + 1,
        when dv_wf(v) && (u as int) < v.n
{
    u == t || reach_any(v, t, u, v.cs[u as int].len() as int)
}

/// Whether some of the first `j` children of `u` is reachable from `t`.
pub open spec fn reach_any(v: DagView, t: usize, u: usize, j: int) -> bool
    decreases v.pos[u as int], j,
        when dv_wf(v) && (u as int) < v.n && j <= v.cs[u as int].len()
{
    j > 0 && (reach(v, t, v.cs[u as int][j - 1]) || reach_any(v, t, u, j - 1))
}

/// The shortest parent-path length from `t` up to `u`, or `n + 1` when `u`
/// is not reachable.
pub open spec fn dist(v: DagView, t: usize, u: usize) -> int
    decreases v.pos[u as int], v.cs[u as int].len() + 1,
        when dv_wf(v) && (u as int) < v.n
{
    if u == t {
        0
    } else {
        dist_min(v, t, u, v.cs[u as int].len() as int)
    }
}

/// The least distance reached through the first `j` children of `u`.
pub open spec fn dist_min(v: DagView, t: usize, u: usize, j: int) -> int
    decreases v.pos[u as int], j,
        when dv_wf(v) && (u as int) < v.n && j <= v.cs[u as int].len()
{
    if j <= 0 {
        v.n + 1
    } else {
        let m = dist_min(v, t, u, j - 1);
        let x = v.cs[u as int][j - 1];
        if reach(v, t, x) && dist(v, t, x) + 1 < m {
            dist(v, t, x) + 1
        } else {
            m
        }
    }
}

/// The semantic value `t` contributes to its ancestor `u`: 1 at `t` itself,
/// and otherwise the best child contribution scaled by the relation weight,
/// truncated at each step.
pub open spec fn sv(v: DagView, t: usize, u: usize) -> int
    decreases v.pos[u as int], v.cs[u as int].len() + 1,
        when dv_wf(v) && (u as int) < v.n
{
    if u == t {
        SCALE as int
    } else {
        sv_max(v, t, u, v.cs[u as int].len() as int)
    }
}

/// The best contribution through the first `j` children of `u`.
pub open spec fn sv_max(v: DagView, t: usize, u: usize, j: int) -> int
    decreases v.pos[u as int], j,
        when dv_wf(v) && (u as int) < v.n && j <= v.cs[u as int].len()
{
    if j <= 0 {
        0
    } else {
        let m = sv_max(v, t, u, j - 1);
        let x = v.cs[u as int][j - 1];
        if reach(v, t, x) {
            let c = sv(v, t, x) * weight_of(v.ps[x as int], u) / (SCALE as int);
            if c > m {
                c
            } else {
                m
            }
        } else {
            m
        }
    }
}

/// Whether term `u` is a descendant of `t` or `t` itself: some chain of
/// parent edges leads from `u` up to `t`.
pub open spec fn desc(v: DagView, u: usize, t: usize) -> bool
    decreases v.n - v.pos[u as int], v.ps[u as int].len() + 1,
        when dv_wf(v) && (u as int) < v.n
{
    u == t || desc_any(v, u, t, v.ps[u as int].len() as int)
}

/// Whether some of the first `j` parents of `u` descends from `t`.
pub open spec fn desc_any(v: DagView, u: usize, t: usize, j: int) -> bool
    decreases v.n - v.pos[u as int], j,
        when dv_wf(v) && (u as int) < v.n && j <= v.ps[u as int].len()
{
    j > 0 && (desc(v, (v.ps[u as int][j - 1]).0, t) || desc_any(v, u, t, j - 1))
}

impl Dag {
    /// The structural view of the hierarchy.
    pub open spec fn dv(&self) -> DagView {
        DagView {
            n: self.term_count as int,
            ps: self.parents@.map_values(|v: Vec<(usize, u64)>| v@),
            cs: self.children@.map_values(|v: Vec<usize>| v@),
            pos: self.topo_pos@,
        }
    }

    /// The processing order: terms sorted by non-decreasing level, each term
    /// exactly once, with its position recorded.
    pub open spec fn order_wf(&self) -> bool {
        &&& self.order@.len() == self.term_count
        &&& self.order_inv@.len() == self.term_count
        &&& (forall|i: int| 0 <= i < self.order@.len() ==> (#[trigger] self.order@[i]) < self.term_count)
        &&& self.order@.no_duplicates()
        &&& (forall|i: int, j: int|
            0 <= i <= j < self.order@.len() ==> (self.topo_pos@[(#[trigger] self.order@[i]) as int]
                as int) <= self.topo_pos@[(#[trigger] self.order@[j]) as int] as int)
        &&& (forall|t: int|
            0 <= t < self.term_count ==> ((#[trigger] self.order_inv@[t]) as int)
                < self.order@.len() && self.order@[self.order_inv@[t] as int] == t)
    }

    /// The protein annotations: distinct protein names, each carrying a
    /// duplicate-free list of term indices in range.
    pub open spec fn annotations_wf(&self) -> bool {
        &&& (forall|a: int, b: int|
            0 <= a < b < self.protein_go@.len() ==> (#[trigger] self.protein_go@[a]).0@ != (
            #[trigger] self.protein_go@[b]).0@)
        &&& (forall|a: int|
            0 <= a < self.protein_go@.len() ==> (#[trigger] self.protein_go@[a]).1@.no_duplicates())
        &&& (forall|a: int, k: int|
            0 <= a < self.protein_go@.len() && 0 <= k < self.protein_go@[a].1@.len() ==> (
            #[trigger] self.protein_go@[a].1@[k]) < self.term_count)
    }

    /// The whole invariant: structure, order, annotations, and caches that
    /// hold exactly the similarity values they stand for.
    pub open spec fn wf(&self) -> bool {
        &&& dv_wf(self.dv())
        &&& self.order_wf()
        &&& self.annotations_wf()
        &&& (forall|e: int|
            0 <= e < self.sim_cache@.len() ==> ((#[trigger] self.sim_cache@[e]).0.0
                < self.term_count && self.sim_cache@[e].0.1 < self.term_count
                && self.sim_cache@[e].1 == term_sim(
                self.dv(),
                self.sim_cache@[e].0.0,
                self.sim_cache@[e].0.1,
            )))
        &&& (forall|e: int|
            0 <= e < self.sim_child_cache@.len() ==> ((#[trigger] self.sim_child_cache@[e]).0.0
                < self.term_count && self.sim_child_cache@[e].0.1 < self.term_count
                && self.sim_child_cache@[e].1 == term_sim_child(
                self.dv(),
                self.sim_child_cache@[e].0.0,
                self.sim_child_cache@[e].0.1,
            )))
    }
}

/// Whether `u` is an ancestor of both `a` and `b` (or one of them).
pub open spec fn common_anc(v: DagView, a: usize, b: usize, u: usize) -> bool {
    reach(v, a, u) && reach(v, b, u)
}

/// The distance sum that the lowest common ancestor minimizes.
pub open spec fn dist_sum(v: DagView, a: usize, b: usize, u: usize) -> int {
    dist(v, a, u) + dist(v, b, u)
}

/// Whether `u` is the lowest common ancestor of `a` and `b`: a common
/// ancestor with the least distance sum, the smallest such term on ties.
pub open spec fn is_lca(v: DagView, a: usize, b: usize, u: usize) -> bool {
    &&& (u as int) < v.n
    &&& common_anc(v, a, b, u)
    &&& (forall|w: usize|
        (w as int) < v.n && #[trigger] common_anc(v, a, b, w) ==> (dist_sum(v, a, b, u) < dist_sum(
            v,
            a,
            b,
            w,
        ) || (dist_sum(v, a, b, u) == dist_sum(v, a, b, w) && u <= w)))
}

/// The lowest common ancestor, if the two terms share any ancestor.
pub open spec fn lca_spec(v: DagView, a: usize, b: usize) -> Option<usize> {
    if exists|u: usize| #[trigger] is_lca(v, a, b, u) {
        Some(choose|u: usize| #[trigger] is_lca(v, a, b, u))
    } else {
        None
    }
}

/// The lowest common ancestor is unique.
pub proof fn lemma_lca_unique(v: DagView, a: usize, b: usize, u1: usize, u2: usize)
    requires
        is_lca(v, a, b, u1),
        is_lca(v, a, b, u2),
    ensures
        u1 == u2,
{
    assert(common_anc(v, a, b, u1));
    assert(common_anc(v, a, b, u2));
}

/// The position, among the first `j` children of `u`, of the first child
/// whose distance from `t` is one nearer — or -1 when none is.
pub open spec fn pred_at(v: DagView, t: usize, u: usize, j: int) -> int
    decreases j,
{
    if j <= 0 {
        -1
    } else {
        let x = v.cs[u as int][j - 1];
        let r = pred_at(v, t, u, j - 1);
        if r >= 0 {
            r
        } else if reach(v, t, x) && dist(v, t, x) + 1 == dist(v, t, u) {
            j - 1
        } else {
            -1
        }
    }
}

/// The child a shortest path from `t` up to `u` steps through: the first
/// child of `u` that lies one step nearer to `t`.
pub open spec fn pred_spec(v: DagView, t: usize, u: usize) -> usize {
    v.cs[u as int][pred_at(v, t, u, v.cs[u as int].len() as int)]
}

/// The shortest path from `t` up to its ancestor `u`, child end first, each
/// step through the first child that sits one nearer to `t`.
pub open spec fn path_spec(v: DagView, t: usize, u: usize) -> Seq<usize>
    decreases dist(v, t, u),
        when dv_wf(v) && (t as int) < v.n && (u as int) < v.n && reach(v, t, u)
        via path_spec_dec
{
    if u == t {
        seq![t]
    } else {
        path_spec(v, t, pred_spec(v, t, u)).push(u)
    }
}

#[via_fn]
proof fn path_spec_dec(v: DagView, t: usize, u: usize) {
    if u != t {
        lemma_pred_exists(v, t, u);
        lemma_dist_bounds(v, t, u);
        let p = pred_spec(v, t, u);
        assert((p as int) < v.n);
        assert(reach(v, t, p));
        assert(dist(v, t, p) < dist(v, t, u));
        lemma_dist_bounds(v, t, p);
    }
}

/// Distance minima never leave the range `[0, n + 1]`.
pub proof fn lemma_dist_min_range(v: DagView, t: usize, u: usize, j: int)
    requires
        dv_wf(v),
        (t as int) < v.n,
        (u as int) < v.n,
        0 <= j <= v.cs[u as int].len(),
    ensures
        1 <= dist_min(v, t, u, j) <= v.n + 1,
    decreases v.pos[u as int], j,
{
    if j > 0 {
        lemma_dist_min_range(v, t, u, j - 1);
        let x = v.cs[u as int][j - 1];
        if reach(v, t, x) && dist(v, t, x) + 1 < dist_min(v, t, u, j - 1) {
            lemma_dist_bounds(v, t, x);
        }
    }
}

/// A reachable term sits at most its level away: distances are bounded by
/// the level, hence by the term count.
pub proof fn lemma_dist_bounds(v: DagView, t: usize, u: usize)
    requires
        dv_wf(v),
        (t as int) < v.n,
        (u as int) < v.n,
        reach(v, t, u),
    ensures
        0 <= dist(v, t, u) <= v.pos[u as int] as int,
        dist(v, t, u) <= v.n,
    decreases v.pos[u as int], v.cs[u as int].len() + 1,
{
    if u != t {
        lemma_reach_any_dist(v, t, u, v.cs[u as int].len() as int);
    }
}

/// When some child below `j` is reachable, the distance minimum over the
/// first `j` children is positive and at most the level of `u`.
proof fn lemma_reach_any_dist(v: DagView, t: usize, u: usize, j: int)
    requires
        dv_wf(v),
        (t as int) < v.n,
        (u as int) < v.n,
        0 <= j <= v.cs[u as int].len(),
        reach_any(v, t, u, j),
    ensures
        1 <= dist_min(v, t, u, j) <= v.pos[u as int] as int,
    decreases v.pos[u as int], j,
{
    let x = v.cs[u as int][j - 1];
    lemma_dist_min_range(v, t, u, j - 1);
    if reach(v, t, x) {
        lemma_dist_bounds(v, t, x);
        assert(dist(v, t, x) + 1 <= v.pos[u as int] as int);
    } else {
        lemma_reach_any_dist(v, t, u, j - 1);
    }
}

/// A reachable term other than the start has a first child on a shortest
/// path: the distance minimum is achieved at some child.
pub proof fn lemma_pred_exists(v: DagView, t: usize, u: usize)
    requires
        dv_wf(v),
        (t as int) < v.n,
        (u as int) < v.n,
        reach(v, t, u),
        u != t,
    ensures
        ({
            let k = pred_at(v, t, u, v.cs[u as int].len() as int);
            &&& 0 <= k < v.cs[u as int].len()
            &&& reach(v, t, v.cs[u as int][k])
            &&& dist(v, t, v.cs[u as int][k]) + 1 == dist(v, t, u)
            &&& (pred_spec(v, t, u) as int) < v.n
        }),
{
    lemma_dist_bounds(v, t, u);
    lemma_pred_search(v, t, u, v.cs[u as int].len() as int);
}

/// Either the distance minimum over the first `j` children is not yet the
/// final distance, or the search below `j` finds a child achieving it.
proof fn lemma_pred_search(v: DagView, t: usize, u: usize, j: int)
    requires
        dv_wf(v),
        (t as int) < v.n,
        (u as int) < v.n,
        reach(v, t, u),
        u != t,
        0 <= j <= v.cs[u as int].len(),
        dist_min(v, t, u, j) == dist(v, t, u),
    ensures
        ({
            let k = pred_at(v, t, u, j);
            &&& 0 <= k < j
            &&& reach(v, t, v.cs[u as int][k])
            &&& dist(v, t, v.cs[u as int][k]) + 1 == dist(v, t, u)
        }),
    decreases j,
{
    lemma_reach_any_dist(v, t, u, v.cs[u as int].len() as int);
    if j > 0 {
        let x = v.cs[u as int][j - 1];
        lemma_dist_min_range(v, t, u, j - 1);
        if dist_min(v, t, u, j - 1) == dist(v, t, u) {
            lemma_pred_search(v, t, u, j - 1);
            if pred_at(v, t, u, j - 1) >= 0 {
            }
        } else {
            // the minimum dropped exactly at child j - 1
            assert(reach(v, t, x) && dist(v, t, x) + 1 == dist(v, t, u));
            lemma_pred_none_when_above(v, t, u, j - 1);
        }
    } else {
        // the distance of an unreached start equals n + 1, but u is reachable
        lemma_dist_bounds(v, t, u);
        assert(dist_min(v, t, u, 0) == v.n + 1);
        assert(dist(v, t, u) <= v.n);
        assert(false);
    }
}

/// While the minimum over a prefix stays above the final distance, the
/// search finds nothing in that prefix.
proof fn lemma_pred_none_when_above(v: DagView, t: usize, u: usize, j: int)
    requires
        dv_wf(v),
        (t as int) < v.n,
        (u as int) < v.n,
        reach(v, t, u),
        u != t,
        0 <= j <= v.cs[u as int].len(),
        dist_min(v, t, u, j) != dist(v, t, u),
    ensures
        pred_at(v, t, u, j) == -1,
    decreases j,
{
    if j > 0 {
        let x = v.cs[u as int][j - 1];
        lemma_dist_min_final(v, t, u, j);
        lemma_pred_none_when_above(v, t, u, j - 1);
        if reach(v, t, x) && dist(v, t, x) + 1 == dist(v, t, u) {
            assert(dist_min(v, t, u, j) <= dist(v, t, u)) by {
                lemma_dist_min_range(v, t, u, j - 1);
            }
            lemma_dist_min_ge(v, t, u, j);
            assert(false);
        }
    }
}

/// Prefix minima never drop below the full minimum.
proof fn lemma_dist_min_final(v: DagView, t: usize, u: usize, j: int)
    requires
        dv_wf(v),
        (t as int) < v.n,
        (u as int) < v.n,
        u != t,
        0 <= j <= v.cs[u as int].len(),
    ensures
        dist_min(v, t, u, j) >= dist(v, t, u),
    decreases v.cs[u as int].len() - j,
{
    if j < v.cs[u as int].len() {
        lemma_dist_min_final(v, t, u, j + 1);
    }
}

/// The full minimum is bounded by every prefix minimum.
proof fn lemma_dist_min_ge(v: DagView, t: usize, u: usize, j: int)
    requires
        dv_wf(v),
        (t as int) < v.n,
        (u as int) < v.n,
        u != t,
        0 <= j <= v.cs[u as int].len(),
    ensures
        dist(v, t, u) <= dist_min(v, t, u, j),
    decreases v.cs[u as int].len() - j,
{
    lemma_dist_min_final(v, t, u, j);
}

/// Semantic values stay between zero and one.
pub proof fn lemma_sv_bounds(v: DagView, t: usize, u: usize)
    requires
        dv_wf(v),
        (t as int) < v.n,
        (u as int) < v.n,
    ensures
        0 <= sv(v, t, u) <= SCALE,
    decreases v.pos[u as int], v.cs[u as int].len() + 1,
{
    if u != t {
        lemma_sv_max_bounds(v, t, u, v.cs[u as int].len() as int);
    }
}

/// Best-of-children semantic contributions stay between zero and one.
pub proof fn lemma_sv_max_bounds(v: DagView, t: usize, u: usize, j: int)
    requires
        dv_wf(v),
        (t as int) < v.n,
        (u as int) < v.n,
        0 <= j <= v.cs[u as int].len(),
    ensures
        0 <= sv_max(v, t, u, j) <= SCALE,
    decreases v.pos[u as int], j,
{
    if j > 0 {
        lemma_sv_max_bounds(v, t, u, j - 1);
        let x = v.cs[u as int][j - 1];
        if reach(v, t, x) {
            lemma_sv_bounds(v, t, x);
            let w = weight_of(v.ps[x as int], u);
            assert(w <= SCALE) by {
                assert(v.cs[u as int].contains(x)) by {
                    assert(v.cs[u as int][j - 1] == x);
                }
                assert(has_key(v.ps[x as int], u));
                let k = key_at(v.ps[x as int], u);
                assert(0 <= k < v.ps[x as int].len() && v.ps[x as int][k].0 == u);
            }
            assert(0 <= sv(v, t, x) * w / (SCALE as int) <= SCALE) by (nonlinear_arith)
                requires
                    0 <= sv(v, t, x) <= SCALE,
                    0 <= w <= SCALE,
                    SCALE == 10_000,
            ;
        }
    }
}

/// The sum of the semantic values of `t` over the nodes of a path.
pub open spec fn path_sv_sum(v: DagView, t: usize, path: Seq<usize>) -> int
    decreases path.len(),
{
    if path.len() == 0 {
        0
    } else {
        path_sv_sum(v, t, path.drop_last()) + sv(v, t, path.last())
    }
}

/// The ancestor-based term similarity of two terms, in fixed point:
/// zero without a common ancestor; otherwise, over the shortest paths to
/// the lowest common ancestor, the semantic value of the deeper term at the
/// ancestor over the sum along its path — from the deeper side when one
/// path is strictly shorter, from the better of the two sides on a tie.
pub open spec fn term_sim(v: DagView, a: usize, b: usize) -> int {
    match lca_spec(v, a, b) {
        Option::None => 0,
        Option::Some(l) => {
            let da = dist(v, a, l);
            let db = dist(v, b, l);
            let suma = path_sv_sum(v, a, path_spec(v, a, l));
            let sumb = path_sv_sum(v, b, path_spec(v, b, l));
            if da < db {
                sv(v, b, l) * (SCALE as int) / sumb
            } else if db < da {
                sv(v, a, l) * (SCALE as int) / suma
            } else {
                let num = if sv(v, a, l) >= sv(v, b, l) {
                    sv(v, a, l)
                } else {
                    sv(v, b, l)
                };
                let den = if suma >= sumb {
                    suma
                } else {
                    sumb
                };
                num * (SCALE as int) / den
            }
        },
    }
}

/// How many terms below `j` are proper descendants of `a`.
pub open spec fn desc_count(v: DagView, a: usize, j: int) -> int
    decreases j,
{
    if j <= 0 {
        0
    } else {
        desc_count(v, a, j - 1) + if in_desc(v, a, (j - 1) as usize) {
            1int
        } else {
            0int
        }
    }
}

/// Whether term `u` belongs to the proper-descendant set of `a`.
pub open spec fn in_desc(v: DagView, a: usize, u: usize) -> bool {
    u != a && desc(v, u, a)
}

/// How many terms below `j` are proper descendants of both `a` and `b`.
pub open spec fn desc_common_count(v: DagView, a: usize, b: usize, j: int) -> int
    decreases j,
{
    if j <= 0 {
        0
    } else {
        desc_common_count(v, a, b, j - 1) + if in_desc(v, a, (j - 1) as usize) && in_desc(
            v,
            b,
            (j - 1) as usize,
        ) {
            1int
        } else {
            0int
        }
    }
}

/// How many terms below `j` are proper descendants of `a` or of `b`.
pub open spec fn desc_union_count(v: DagView, a: usize, b: usize, j: int) -> int
    decreases j,
{
    if j <= 0 {
        0
    } else {
        desc_union_count(v, a, b, j - 1) + if in_desc(v, a, (j - 1) as usize) || in_desc(
            v,
            b,
            (j - 1) as usize,
        ) {
            1int
        } else {
            0int
        }
    }
}

/// The descendant-based term similarity: the size of the union of the two
/// proper-descendant sets over the size of their intersection (this ratio,
/// kept for compatibility, is the inverse of the conventional one), zero
/// when either set or the intersection is empty.
pub open spec fn term_sim_child(v: DagView, a: usize, b: usize) -> int {
    let ca = desc_count(v, a, v.n);
    let cb = desc_count(v, b, v.n);
    let com = desc_common_count(v, a, b, v.n);
    if ca == 0 || cb == 0 || com == 0 {
        0
    } else {
        desc_union_count(v, a, b, v.n) * (SCALE as int) / com
    }
}

/// Whether the directed edge list sends `x` to parent `p`.
pub open spec fn dlist_has(es: Seq<(usize, usize, u64)>, x: usize, p: usize) -> bool {
    exists|k: int| 0 <= k < es.len() && (#[trigger] es[k]).0 == x && es[k].1 == p
}

/// The relation weight the directed pair ends up with: the last mention wins.
pub open spec fn dlist_weight(es: Seq<(usize, usize, u64)>, x: usize, p: usize) -> u64
    decreases es.len(),
{
    if es.len() == 0 {
        0
    } else if es.last().0 == x && es.last().1 == p {
        es.last().2
    } else {
        dlist_weight(es.drop_last(), x, p)
    }
}

/// One step of reading a directed edge list.
pub proof fn lemma_dlist_step(es: Seq<(usize, usize, u64)>, k: int, x: usize, p: usize)
    requires
        0 <= k < es.len(),
    ensures
        dlist_has(es.take(k + 1), x, p) == (dlist_has(es.take(k), x, p) || (es[k].0 == x
            && es[k].1 == p)),
        (es[k].0 == x && es[k].1 == p) ==> dlist_weight(es.take(k + 1), x, p) == es[k].2,
        !(es[k].0 == x && es[k].1 == p) ==> dlist_weight(es.take(k + 1), x, p) == dlist_weight(
            es.take(k),
            x,
            p,
        ),
{
    let s1 = es.take(k + 1);
    assert(s1.drop_last() =~= es.take(k));
    assert(s1.last() == es[k]);
    if dlist_has(es.take(k), x, p) {
        let t = choose|t: int|
            0 <= t < es.take(k).len() && (#[trigger] es.take(k)[t]).0 == x && es.take(k)[t].1
                == p;
        assert(s1[t] == es.take(k)[t]);
        assert(dlist_has(s1, x, p));
    }
    if dlist_has(s1, x, p) {
        let t = choose|t: int|
            0 <= t < s1.len() && (#[trigger] s1[t]).0 == x && s1[t].1 == p;
        if t < k {
            assert(es.take(k)[t] == s1[t]);
            assert(dlist_has(es.take(k), x, p));
        }
    }
}

/// Valid construction data: bounded term count, in-range loop-free edges
/// with bounded weights, and well-formed annotations.
pub open spec fn parts_ok(
    term_count: usize,
    es: Seq<(usize, usize, u64)>,
    ann: Seq<(String, Vec<usize>)>,
) -> bool {
    &&& term_count <= MAX_TERM_COUNT
    &&& (forall|k: int|
        0 <= k < es.len() ==> ((#[trigger] es[k]).0 < term_count && es[k].1 < term_count
            && es[k].0 != es[k].1 && es[k].2 <= SCALE))
    &&& (forall|a: int, b: int|
        0 <= a < b < ann.len() ==> (#[trigger] ann[a]).0@ != (#[trigger] ann[b]).0@)
    &&& (forall|a: int| 0 <= a < ann.len() ==> (#[trigger] ann[a]).1@.no_duplicates())
    &&& (forall|a: int, k: int|
        0 <= a < ann.len() && 0 <= k < ann[a].1@.len() ==> (#[trigger] ann[a].1@[k])
            < term_count)
}

/// A bounded level assignment under which every edge climbs: each child
/// sits strictly below its parent, and no level exceeds `n`.
pub open spec fn leveled(es: Seq<(usize, usize, u64)>, n: int, q: Seq<usize>) -> bool {
    &&& q.len() == n
    &&& (forall|t: int| 0 <= t < n ==> ((#[trigger] q[t]) as int) <= n)
    &&& (forall|k: int|
        0 <= k < es.len() ==> ((q[(#[trigger] es[k]).0 as int]) as int) < (q[es[k].1 as int]) as int)
}

/// Whether the edge data closes no cycle: some bounded level assignment
/// makes every edge climb.  The bound costs nothing: on acyclic data the
/// positions of a topological order of the `n` terms are such an
/// assignment, and around a cycle no assignment can climb at every step.
pub open spec fn acyclic_edges(es: Seq<(usize, usize, u64)>, n: int) -> bool {
    exists|q: Seq<usize>| leveled(es, n, q)
}

/// The sum of a sequence of levels.
pub open spec fn level_sum(s: Seq<usize>) -> int
    decreases s.len(),
{
    if s.len() == 0 {
        0
    } else {
        level_sum(s.drop_last()) + s.last()
    }
}

/// Raising one level raises the sum by the same amount.
proof fn lemma_level_sum_update(s: Seq<usize>, i: int, v: usize)
    requires
        0 <= i < s.len(),
    ensures
        level_sum(s.update(i, v)) == level_sum(s) - s[i] + v,
    decreases s.len(),
{
    let u = s.update(i, v);
    if i == s.len() - 1 {
        assert(u.drop_last() =~= s.drop_last());
        assert(u.last() == v);
    } else {
        assert(u.drop_last() =~= s.drop_last().update(i, v));
        assert(u.last() == s.last());
        lemma_level_sum_update(s.drop_last(), i, v);
    }
}

/// Bounded levels have a bounded, non-negative sum.
proof fn lemma_level_sum_bound(s: Seq<usize>, m: int)
    requires
        forall|t: int| 0 <= t < s.len() ==> ((#[trigger] s[t]) as int) <= m,
    ensures
        0 <= level_sum(s) <= s.len() * m,
    decreases s.len(),
{
    if s.len() > 0 {
        lemma_level_sum_bound(s.drop_last(), m);
        assert((s.len() - 1) * m + m == s.len() * m) by (nonlinear_arith);
    }
}

/// Append a child to the inverse list of a parent.
fn push_child(cs: &mut Vec<Vec<usize>>, p: usize, x: usize)
    requires
        p < old(cs)@.len(),
    ensures
        final(cs)@.len() == old(cs)@.len(),
        final(cs)@[p as int]@ == old(cs)@[p as int]@.push(x),
        forall|u: int| 0 <= u < old(cs)@.len() && u != p ==> final(cs)@[u] == old(cs)@[u],
{
    let row = &mut cs[p];
    row.push(x);
}

impl Dag {
    /// Build the hierarchy from weighted child-to-parent edges and protein
    /// annotations.  Levels are assigned by relaxation until they settle:
    /// acyclic edge data always settles and is accepted, and edge data that
    /// closes a cycle is rejected with `None`.
    pub fn new_from_parts(
        term_count: usize,
        edges: &Vec<(usize, usize, u64)>,
        annotations: Vec<(String, Vec<usize>)>,
    ) -> (r: Option<Dag>)
        requires
            parts_ok(term_count, edges@, annotations@),
        ensures
            r is Some <==> acyclic_edges(edges@, term_count as int),
            r is Some ==> ({
                let d = r->Some_0;
                &&& d.wf()
                &&& d.term_count == term_count
                &&& d.protein_go == annotations
                &&& (forall|x: usize, p: usize|
                    x < term_count && p < term_count ==> (#[trigger] has_key(
                        d.dv().ps[x as int],
                        p,
                    )) == dlist_has(edges@, x, p))
                &&& (forall|x: usize, p: usize|
                    x < term_count && p < term_count && dlist_has(edges@, x, p)
                        ==> weight_of(d.dv().ps[x as int], p) == dlist_weight(edges@, x, p))
            }),
    {
        let n = term_count;
        // parent lists, last weight winning for a repeated pair
        let mut parents: Vec<Vec<(usize, u64)>> = Vec::new();
        let mut i: usize = 0;
        while i < n
            invariant
                i <= n,
                parents@.len() == i,
                forall|t: int| 0 <= t < i ==> (#[trigger] parents@[t]@).len() == 0,
            decreases n - i,
        {
            parents.push(Vec::new());
            i += 1;
        }
        let mut k: usize = 0;
        proof {
            assert(edges@.take(0) =~= Seq::<(usize, usize, u64)>::empty());
        }
        while k < edges.len()
            invariant
                k <= edges@.len(),
                parents@.len() == n,
                parts_ok(n, edges@, annotations@),
                forall|t: int| 0 <= t < n ==> nodup_keys(#[trigger] parents@[t]@),
                forall|t: int, e: int|
                    0 <= t < n && 0 <= e < parents@[t]@.len() ==> ((
                    #[trigger] parents@[t]@[e]).0 < n && parents@[t]@[e].1 <= SCALE
                        && (parents@[t]@[e].0 as int) != t),
                forall|x: usize, p: usize|
                    x < n && p < n ==> (#[trigger] has_key(parents@[x as int]@, p)) == dlist_has(
                        edges@.take(k as int),
                        x,
                        p,
                    ),
                forall|x: usize, p: usize|
                    x < n && p < n && has_key(parents@[x as int]@, p) ==> weight_of(
                        parents@[x as int]@,
                        p,
                    ) == dlist_weight(edges@.take(k as int), x, p),
            decreases edges@.len() - k,
        {
            let (a, b, w) = edges[k];
            let ghost pre = parents@;
            let found = crate::graph::find_key(&parents[a], b);
            match found {
                Some(e) => {
                    crate::graph::set_entry(&mut parents, a, e, (b, w));
                    proof {
                        crate::graph::lemma_key_at(pre[a as int]@, b, e as int);
                    }
                },
                None => {
                    crate::graph::push_entry(&mut parents, a, (b, w));
                    proof {
                        crate::graph::lemma_nodup_push(pre[a as int]@, b, w);
                    }
                },
            }
            proof {
                lemma_row_upsert(pre, parents@, a, b, w, n as int);
                assert forall|x: usize, p: usize| x < n && p < n implies (#[trigger] has_key(
                    parents@[x as int]@,
                    p,
                )) == dlist_has(edges@.take(k + 1), x, p) by {
                    lemma_dlist_step(edges@, k as int, x, p);
                }
                assert forall|x: usize, p: usize|
                    x < n && p < n && has_key(parents@[x as int]@, p) implies weight_of(
                    parents@[x as int]@,
                    p,
                ) == dlist_weight(edges@.take(k + 1), x, p) by {
                    lemma_dlist_step(edges@, k as int, x, p);
                }
            }
            k += 1;
        }
        proof {
            assert(edges@.take(edges@.len() as int) =~= edges@);
        }
        // levels by relaxation, run until they settle: a round that changes
        // nothing leaves every edge climbing.  Each change raises the level
        // sum, which a bounded assignment caps, so on acyclic data no level
        // passes `n` and the rounds end; a cycle pumps some level past `n`.
        let mut pos: Vec<usize> = Vec::new();
        let mut i: usize = 0;
        while i < n
            invariant
                i <= n,
                pos@.len() == i,
                forall|t: int| 0 <= t < i ==> (#[trigger] pos@[t]) == 0,
            decreases n - i,
        {
            pos.push(0);
            i += 1;
        }
        let ghost acy = acyclic_edges(edges@, n as int);
        let ghost q: Seq<usize> = if acy {
            choose|q: Seq<usize>| leveled(edges@, n as int, q)
        } else {
            Seq::empty()
        };
        proof {
            if acy {
                assert(leveled(edges@, n as int, q));
            }
            lemma_level_sum_bound(pos@, n as int);
        }
        let mut changed = true;
        while changed
            invariant
                n == term_count,
                pos@.len() == n,
                n <= MAX_TERM_COUNT,
                parts_ok(n, edges@, annotations@),
                forall|t: int| 0 <= t < n ==> ((#[trigger] pos@[t]) as int) <= n,
                0 <= level_sum(pos@) <= (n as int) * (n as int),
                acy == acyclic_edges(edges@, n as int),
                acy ==> leveled(edges@, n as int, q),
                acy ==> (forall|t: int|
                    0 <= t < n ==> ((#[trigger] pos@[t]) as int) <= q[t] as int),
                !changed ==> (forall|k2: int|
                    0 <= k2 < edges@.len() ==> ((pos@[(#[trigger] edges@[k2]).0 as int] as int)
                        < pos@[edges@[k2].1 as int] as int)),
            decreases
                    (n as int) * (n as int) + 1 - level_sum(pos@),
                    (if changed {
                        1int
                    } else {
                        0int
                    }),
        {
            let ghost p0 = pos@;
            changed = false;
            let mut k: usize = 0;
            while k < edges.len()
                invariant
                    k <= edges@.len(),
                    n == term_count,
                    pos@.len() == n,
                    n <= MAX_TERM_COUNT,
                    parts_ok(n, edges@, annotations@),
                    forall|t: int| 0 <= t < n ==> ((#[trigger] pos@[t]) as int) <= n,
                    acy == acyclic_edges(edges@, n as int),
                    acy ==> leveled(edges@, n as int, q),
                    acy ==> (forall|t: int|
                        0 <= t < n ==> ((#[trigger] pos@[t]) as int) <= q[t] as int),
                    p0.len() == n,
                    !changed ==> pos@ == p0,
                    changed ==> level_sum(pos@) >= level_sum(p0) + 1,
                    !changed ==> (forall|k2: int|
                        0 <= k2 < k ==> ((pos@[(#[trigger] edges@[k2]).0 as int] as int)
                            < pos@[edges@[k2].1 as int] as int)),
                decreases edges@.len() - k,
            {
                let (a, b, _) = edges[k];
                if pos[b] <= pos[a] {
                    let np = pos[a] + 1;
                    if np > n {
                        proof {
                            if acy {
                                assert(edges@[k as int].0 == a);
                                assert(edges@[k as int].1 == b);
                                assert((pos@[a as int] as int) <= q[a as int] as int);
                                assert(((q[(edges@[k as int]).0 as int]) as int) < (
                                q[edges@[k as int].1 as int]) as int);
                                assert((q[b as int] as int) <= n as int);
                                assert(false);
                            }
                            assert(!acyclic_edges(edges@, term_count as int));
                        }
                        return None;
                    }
                    let ghost pre = pos@;
                    pos.set(b, np);
                    proof {
                        lemma_level_sum_update(pre, b as int, np);
                        if acy {
                            assert(((q[(edges@[k as int]).0 as int]) as int) < (
                            q[edges@[k as int].1 as int]) as int);
                            assert forall|t: int| 0 <= t < n implies ((#[trigger] pos@[t]) as int)
                                <= q[t] as int by {
                                if t != b as int {
                                    assert(pos@[t] == pre[t]);
                                }
                            }
                        }
                    }
                    changed = true;
                }
                k += 1;
            }
            proof {
                lemma_level_sum_bound(pos@, n as int);
            }
        }
        proof {
            if !acy {
                // the settled levels are themselves a bounded assignment
                // under which every edge climbs, so the data is acyclic
                assert(leveled(edges@, n as int, pos@));
                assert(false);
            }
        }
        // children as the exact inverse of the parent lists
        let mut children: Vec<Vec<usize>> = Vec::new();
        let mut i: usize = 0;
        while i < n
            invariant
                i <= n,
                children@.len() == i,
                forall|t: int| 0 <= t < i ==> (#[trigger] children@[t]@).len() == 0,
            decreases n - i,
        {
            children.push(Vec::new());
            i += 1;
        }
        let mut x: usize = 0;
        while x < n
            invariant
                x <= n,
                children@.len() == n,
                parents@.len() == n,
                forall|t: int| 0 <= t < n ==> nodup_keys(#[trigger] parents@[t]@),
                forall|t: int, e: int|
                    0 <= t < n && 0 <= e < parents@[t]@.len() ==> ((
                    #[trigger] parents@[t]@[e]).0 < n),
                forall|u: int, c: int|
                    0 <= u < n && 0 <= c < children@[u]@.len() ==> ((
                    #[trigger] children@[u]@[c]) as int) < x,
                forall|u: int, c1: int, c2: int|
                    0 <= u < n && 0 <= c1 < c2 < children@[u]@.len() ==> (
                    #[trigger] children@[u]@[c1]) < (#[trigger] children@[u]@[c2]),
                forall|u: int, c: int|
                    0 <= u < n && 0 <= c < children@[u]@.len() ==> has_key(
                        parents@[(#[trigger] children@[u]@[c]) as int]@,
                        u as usize,
                    ),
                forall|u: usize, w: usize|
                    u < n && w < x && has_key(parents@[w as int]@, u) ==> (
                    #[trigger] children@[u as int]@.contains(w)),
            decreases n - x,
        {
            let row_len = parents[x].len();
            let mut e: usize = 0;
            while e < row_len
                invariant
                    e <= row_len,
                    x < n,
                    row_len == parents@[x as int]@.len(),
                    children@.len() == n,
                    parents@.len() == n,
                    forall|t: int| 0 <= t < n ==> nodup_keys(#[trigger] parents@[t]@),
                    forall|t: int, e2: int|
                        0 <= t < n && 0 <= e2 < parents@[t]@.len() ==> ((
                        #[trigger] parents@[t]@[e2]).0 < n),
                    forall|u: int, c: int|
                        0 <= u < n && 0 <= c < children@[u]@.len() ==> ((
                        #[trigger] children@[u]@[c]) as int) <= x,
                    forall|u: int, c1: int, c2: int|
                        0 <= u < n && 0 <= c1 < c2 < children@[u]@.len() ==> (
                        #[trigger] children@[u]@[c1]) < (#[trigger] children@[u]@[c2]),
                    forall|u: int, c: int|
                        0 <= u < n && 0 <= c < children@[u]@.len() ==> has_key(
                            parents@[(#[trigger] children@[u]@[c]) as int]@,
                            u as usize,
                        ),
                    forall|u: usize, w: usize|
                        u < n && w < x && has_key(parents@[w as int]@, u) ==> (
                        #[trigger] children@[u as int]@.contains(w)),
                    // the parents already visited in this row have x recorded
                    forall|t: int|
                        0 <= t < e ==> children@[(#[trigger] parents@[x as int]@[t]).0 as int]@.contains(
                            x,
                        ),
                    // rows only mention x for visited entries
                    forall|u: int, c: int|
                        0 <= u < n && 0 <= c < children@[u]@.len() && (#[trigger] children@[u]@[c])
                            == x ==> (exists|t: int|
                            0 <= t < e && ((#[trigger] parents@[x as int]@[t]).0 as int) == u),
                decreases row_len - e,
            {
                let p = parents[x][e].0;
                let ghost prec = children@;
                proof {
                    assert(!prec[p as int]@.contains(x)) by {
                        if prec[p as int]@.contains(x) {
                            let c = choose|c: int|
                                0 <= c < prec[p as int]@.len() && prec[p as int]@[c] == x;
                            let t = choose|t: int|
                                0 <= t < e && ((#[trigger] parents@[x as int]@[t]).0 as int)
                                    == p as int;
                            assert(parents@[x as int]@[t].0 == parents@[x as int]@[e as int].0);
                        }
                    }
                }
                push_child(&mut children, p, x);
                proof {
                    assert(children@[p as int]@.last() == x);
                    assert forall|u: int, c1: int, c2: int|
                        0 <= u < n && 0 <= c1 < c2 < children@[u]@.len() implies (
                    #[trigger] children@[u]@[c1]) < (#[trigger] children@[u]@[c2]) by {
                        if u == p && c2 == prec[p as int]@.len() {
                            assert(children@[u]@[c1] == prec[u]@[c1]);
                            assert(prec[u]@[c1] != x) by {
                                if prec[u]@[c1] == x {
                                    assert(prec[p as int]@.contains(x));
                                }
                            }
                        }
                    }
                    assert forall|u: usize, w: usize|
                        u < n && w < x && has_key(parents@[w as int]@, u) implies (
                    #[trigger] children@[u as int]@.contains(w)) by {
                        assert(prec[u as int]@.contains(w));
                        let c = choose|c: int|
                            0 <= c < prec[u as int]@.len() && prec[u as int]@[c] == w;
                        assert(children@[u as int]@[c] == w);
                    }
                    assert forall|t: int|
                        0 <= t < e + 1 implies children@[(
                    #[trigger] parents@[x as int]@[t]).0 as int]@.contains(x) by {
                        if t < e {
                            let c = choose|c: int|
                                0 <= c < prec[parents@[x as int]@[t].0 as int]@.len()
                                    && prec[parents@[x as int]@[t].0 as int]@[c] == x;
                            if parents@[x as int]@[t].0 == p {
                                assert(children@[p as int]@[c] == x);
                            } else {
                                assert(children@[parents@[x as int]@[t].0 as int]
                                    == prec[parents@[x as int]@[t].0 as int]);
                            }
                        } else {
                            assert(children@[p as int]@[prec[p as int]@.len() as int] == x);
                        }
                    }
                    assert(has_key(parents@[x as int]@, p)) by {
                        crate::graph::lemma_key_at(parents@[x as int]@, p, e as int);
                    }
                }
                e += 1;
            }
            proof {
                assert forall|u: usize, w: usize|
                    u < n && w < x + 1 && has_key(parents@[w as int]@, u) implies (
                #[trigger] children@[u as int]@.contains(w)) by {
                    if w == x {
                        let t = crate::graph::key_at(parents@[x as int]@, u);
                        crate::graph::lemma_key_at(
                            parents@[x as int]@,
                            u,
                            choose|t: int|
                                0 <= t < parents@[x as int]@.len() && (
                                #[trigger] parents@[x as int]@[t]).0 == u,
                        );
                    }
                }
            }
            x += 1;
        }
        // processing order: the terms level by level
        let mut order: Vec<usize> = Vec::new();
        let mut order_inv: Vec<usize> = Vec::new();
        let mut i: usize = 0;
        while i < n
            invariant
                i <= n,
                order_inv@.len() == i,
            decreases n - i,
        {
            order_inv.push(0);
            i += 1;
        }
        let mut level: usize = 0;
        while level < n + 1
            invariant
                level <= n + 1,
                pos@.len() == n,
                order_inv@.len() == n,
                n <= MAX_TERM_COUNT,
                forall|t: int| 0 <= t < n ==> ((#[trigger] pos@[t]) as int) <= n,
                forall|c: int| 0 <= c < order@.len() ==> (#[trigger] order@[c]) < n,
                forall|c: int|
                    0 <= c < order@.len() ==> ((pos@[(#[trigger] order@[c]) as int]) as int)
                        < level,
                forall|c1: int, c2: int|
                    0 <= c1 <= c2 < order@.len() ==> ((pos@[(#[trigger] order@[c1]) as int])
                        as int) <= pos@[(#[trigger] order@[c2]) as int] as int,
                forall|v: usize|
                    v < n && ((pos@[v as int]) as int) < level ==> ((#[trigger] order_inv@[v as int])
                        as int) < order@.len() && order@[order_inv@[v as int] as int] == v,
                order@.no_duplicates(),
            decreases n + 1 - level,
        {
            let mut v: usize = 0;
            while v < n
                invariant
                    v <= n,
                    level <= n,
                    pos@.len() == n,
                    order_inv@.len() == n,
                    n <= MAX_TERM_COUNT,
                    forall|t: int| 0 <= t < n ==> ((#[trigger] pos@[t]) as int) <= n,
                    forall|c: int| 0 <= c < order@.len() ==> (#[trigger] order@[c]) < n,
                    forall|c: int|
                        0 <= c < order@.len() ==> (((pos@[(#[trigger] order@[c]) as int]) as int)
                            < level || (pos@[order@[c] as int] == level && (order@[c] as int)
                            < v)),
                    forall|c1: int, c2: int|
                        0 <= c1 <= c2 < order@.len() ==> ((pos@[(#[trigger] order@[c1]) as int])
                            as int) <= pos@[(#[trigger] order@[c2]) as int] as int,
                    forall|w: usize|
                        w < n && (((pos@[w as int]) as int) < level || (pos@[w as int] == level
                            && w < v)) ==> ((#[trigger] order_inv@[w as int]) as int)
                            < order@.len() && order@[order_inv@[w as int] as int] == w,
                    order@.no_duplicates(),
                decreases n - v,
            {
                if pos[v] == level {
                    let ghost preo = order@;
                    order_inv.set(v, order.len());
                    order.push(v);
                    proof {
                        assert(!preo.contains(v)) by {
                            if preo.contains(v) {
                                let c = choose|c: int| 0 <= c < preo.len() && preo[c] == v;
                            }
                        }
                        vstd::seq_lib::lemma_no_dup_in_concat(preo, seq![v]);
                        assert(order@ =~= preo.push(v));
                        assert forall|a2: int, b2: int|
                            0 <= a2 < b2 < order@.len() implies order@[a2] != order@[b2] by {
                            if b2 == preo.len() {
                                if order@[a2] == v {
                                    assert(preo[a2] == v);
                                }
                            }
                        }
                    }
                }
                v += 1;
            }
            level += 1;
        }
        proof {
            assert forall|w: usize| w < n implies ((#[trigger] order_inv@[w as int]) as int)
                < order@.len() && order@[order_inv@[w as int] as int] == w by {
                assert(((pos@[w as int]) as int) < n + 1);
            }
            // every term appears, each once, so the order has them all
            assert(order@.len() == n) by {
                crate::graph::lemma_distinct_ids_bound(order@, n as int);
                if order@.len() < n {
                    assert forall|w1: usize, w2: usize|
                        w1 < n && w2 < n && w1 != w2 implies order_inv@[w1 as int]
                        != order_inv@[w2 as int] by {
                        assert(order@[order_inv@[w1 as int] as int] == w1);
                        assert(order@[order_inv@[w2 as int] as int] == w2);
                    }
                    lemma_inv_injective_count(order_inv@, order@, n as int);
                }
            }
        }
        let d = Dag {
            term_count: n,
            parents,
            children,
            topo_pos: pos,
            order,
            order_inv,
            protein_go: annotations,
            sim_cache: Vec::new(),
            sim_child_cache: Vec::new(),
        };
        proof {
            assert(dv_wf(d.dv())) by {
                assert forall|t: int, k2: int|
                    0 <= t < n && 0 <= k2 < d.dv().ps[t].len() implies (d.dv().pos[t] as int)
                    < d.dv().pos[(#[trigger] d.dv().ps[t][k2]).0 as int] as int by {
                    let p = d.dv().ps[t][k2].0;
                    assert(has_key(d.dv().ps[t], p)) by {
                        assert(d.dv().ps[t][k2].0 == p);
                    }
                    assert(dlist_has(edges@, t as usize, p));
                    let ke = choose|ke: int|
                        0 <= ke < edges@.len() && (#[trigger] edges@[ke]).0 == t as usize
                            && edges@[ke].1 == p;
                }
                assert forall|t: int, k2: int|
                    0 <= t < n && 0 <= k2 < d.dv().cs[t].len() implies (d.dv().pos[(
                #[trigger] d.dv().cs[t][k2]) as int] as int) < d.dv().pos[t] as int by {
                    let c = d.dv().cs[t][k2];
                    assert(has_key(d.dv().ps[c as int], t as usize));
                    assert(dlist_has(edges@, c, t as usize));
                    let ke = choose|ke: int|
                        0 <= ke < edges@.len() && (#[trigger] edges@[ke]).0 == c && edges@[ke].1
                            == t as usize;
                }
                assert forall|u: int, w: usize|
                    0 <= u < n && w < n implies ((#[trigger] d.dv().cs[u].contains(w)) <==> has_key(
                    d.dv().ps[w as int],
                    u as usize,
                )) by {
                    if d.dv().cs[u].contains(w) {
                        let c = choose|c: int|
                            0 <= c < d.dv().cs[u].len() && d.dv().cs[u][c] == w;
                    }
                }
                assert forall|t: int| 0 <= t < n implies (#[trigger] d.dv().cs[t]).no_duplicates()
                    by {}
            }
        }
        Some(d)
    }
}

/// Whether `w` appears among the first `idx` processed terms.
pub open spec fn processed(order: Seq<usize>, idx: int, w: usize) -> bool {
    exists|i: int| 0 <= i < idx && order[i] == w
}

/// What a propagation from `t` returns: per term its ancestor flag, its
/// shortest distance from `t`, and its semantic value from `t`.
pub open spec fn prop_ok(v: DagView, t: usize, ra: Seq<bool>, da: Seq<u64>, sa: Seq<u64>) -> bool {
    &&& ra.len() == v.n
    &&& da.len() == v.n
    &&& sa.len() == v.n
    &&& (forall|u: int| 0 <= u < v.n ==> (#[trigger] ra[u]) == reach(v, t, u as usize))
    &&& (forall|u: int| 0 <= u < v.n ==> (#[trigger] da[u]) as int == dist(v, t, u as usize))
    &&& (forall|u: int| 0 <= u < v.n ==> (#[trigger] sa[u]) as int == sv(v, t, u as usize))
}

impl Dag {
    /// Compute, for every term, whether it is an ancestor of `t` (or `t`),
    /// its shortest distance from `t` (`term_count + 1` when unreachable),
    /// and the semantic value `t` contributes to it.
    pub fn propagate(&self, t: usize) -> (r: (Vec<bool>, Vec<u64>, Vec<u64>))
        requires
            self.wf(),
            t < self.term_count,
        ensures
            prop_ok(self.dv(), t, r.0@, r.1@, r.2@),
    {
        let ghost v = self.dv();
        let n = self.term_count;
        let mut ra: Vec<bool> = Vec::new();
        let mut da: Vec<u64> = Vec::new();
        let mut sa: Vec<u64> = Vec::new();
        let mut i: usize = 0;
        while i < n
            invariant
                i <= n,
                ra@.len() == i,
                da@.len() == i,
                sa@.len() == i,
            decreases n - i,
        {
            ra.push(false);
            da.push(0);
            sa.push(0);
            i += 1;
        }
        let mut idx: usize = 0;
        while idx < n
            invariant
                idx <= n,
                self.wf(),
                t < n,
                n == self.term_count,
                v == self.dv(),
                ra@.len() == n,
                da@.len() == n,
                sa@.len() == n,
                forall|w: usize|
                    w < n && #[trigger] processed(self.order@, idx as int, w) ==> (ra@[w as int]
                        == reach(v, t, w) && (da@[w as int] as int) == dist(v, t, w) && (sa@[w
                        as int] as int) == sv(v, t, w)),
            decreases n - idx,
        {
            let u = self.order[idx];
            let ghost cs = v.cs[u as int];
            if u == t {
                ra.set(u, true);
                da.set(u, 0);
                sa.set(u, SCALE);
            } else {
                let deg = self.children[u].len();
                let mut anyr = false;
                let mut md: u64 = n as u64 + 1;
                let mut ms: u64 = 0;
                let mut j: usize = 0;
                while j < deg
                    invariant
                        j <= deg,
                        self.wf(),
                        t < n,
                        u != t,
                        u < n,
                        idx < n,
                        u == self.order@[idx as int],
                        n == self.term_count,
                        v == self.dv(),
                        cs == v.cs[u as int],
                        deg == cs.len(),
                        ra@.len() == n,
                        da@.len() == n,
                        sa@.len() == n,
                        forall|w: usize|
                            w < n && #[trigger] processed(self.order@, idx as int, w) ==> (ra@[w
                                as int] == reach(v, t, w) && (da@[w as int] as int) == dist(
                                v,
                                t,
                                w,
                            ) && (sa@[w as int] as int) == sv(v, t, w)),
                        anyr == reach_any(v, t, u, j as int),
                        md as int == dist_min(v, t, u, j as int),
                        ms as int == sv_max(v, t, u, j as int),
                    decreases deg - j,
                {
                    let x = self.children[u][j];
                    proof {
                        assert(cs[j as int] == x);
                        assert((v.pos[x as int] as int) < v.pos[u as int] as int);
                        // x was processed earlier: the order is sorted by level
                        let ix = self.order_inv@[x as int] as int;
                        assert(self.order@[ix] == x);
                        if ix >= idx {
                            assert((v.pos[self.order@[idx as int] as int] as int) <= v.pos[
                            self.order@[ix] as int] as int);
                        }
                        assert(processed(self.order@, idx as int, x));
                        lemma_dist_min_range(v, t, u, j as int);
                        lemma_dist_min_range(v, t, u, j + 1);
                        lemma_sv_max_bounds(v, t, u, j as int);
                        lemma_sv_max_bounds(v, t, u, j + 1);
                    }
                    if ra[x] {
                        proof {
                            lemma_dist_bounds(v, t, x);
                            lemma_sv_bounds(v, t, x);
                        }
                        anyr = true;
                        let cand = da[x] + 1;
                        if cand < md {
                            md = cand;
                        }
                        let w = match crate::graph::find_key(&self.parents[x], u) {
                            Some(e) => {
                                proof {
                                    crate::graph::lemma_key_at(v.ps[x as int], u, e as int);
                                }
                                self.parents[x][e].1
                            },
                            None => {
                                proof {
                                    assert(v.cs[u as int].contains(x)) by {
                                        assert(v.cs[u as int][j as int] == x);
                                    }
                                    assert(has_key(v.ps[x as int], u));
                                    assert(false);
                                }
                                0
                            },
                        };
                        proof {
                            assert(w <= SCALE);
                            assert(0 <= (sa@[x as int] as int) * w / (SCALE as int) <= SCALE)
                                by (nonlinear_arith)
                                requires
                                    0 <= (sa@[x as int] as int) <= SCALE,
                                    0 <= w <= SCALE,
                                    SCALE == 10_000,
                            ;
                        }
                        let c = sa[x] * w / SCALE;
                        if c > ms {
                            ms = c;
                        }
                    }
                    j += 1;
                }
                let ru = anyr;
                ra.set(u, ru);
                da.set(u, md);
                sa.set(u, ms);
                proof {
                    assert(reach(v, t, u) == reach_any(v, t, u, cs.len() as int));
                    assert(dist(v, t, u) == dist_min(v, t, u, cs.len() as int));
                    assert(sv(v, t, u) == sv_max(v, t, u, cs.len() as int));
                }
            }
            proof {
                assert forall|w: usize|
                    w < n && #[trigger] processed(self.order@, idx + 1, w) implies (ra@[w as int]
                    == reach(v, t, w) && (da@[w as int] as int) == dist(v, t, w) && (sa@[w
                    as int] as int) == sv(v, t, w)) by {
                    let i2 = choose|i2: int| 0 <= i2 < idx + 1 && self.order@[i2] == w;
                    if i2 < idx {
                        assert(processed(self.order@, idx as int, w));
                        if w != u {
                        } else {
                            assert(self.order@[i2] == self.order@[idx as int]);
                        }
                    } else {
                        assert(w == u);
                        if u == t {
                            assert(reach(v, t, u));
                            assert(dist(v, t, u) == 0);
                            assert(sv(v, t, u) == SCALE as int);
                        }
                    }
                }
            }
            idx += 1;
        }
        proof {
            assert forall|u: int| 0 <= u < n implies #[trigger] processed(
                self.order@,
                n as int,
                u as usize,
            ) by {
                let ix = self.order_inv@[u] as int;
                assert(self.order@[ix] == u as usize);
            }
            assert forall|u: int| 0 <= u < n implies (#[trigger] ra@[u]) == reach(
                v,
                t,
                u as usize,
            ) by {
                let w = u as usize;
                assert(processed(self.order@, n as int, w));
                assert((w as int) == u);
            }
            assert forall|u: int| 0 <= u < n implies (#[trigger] da@[u]) as int == dist(
                v,
                t,
                u as usize,
            ) by {
                let w = u as usize;
                assert(processed(self.order@, n as int, w));
                assert((w as int) == u);
            }
            assert forall|u: int| 0 <= u < n implies (#[trigger] sa@[u]) as int == sv(
                v,
                t,
                u as usize,
            ) by {
                let w = u as usize;
                assert(processed(self.order@, n as int, w));
                assert((w as int) == u);
            }
            assert(prop_ok(v, t, ra@, da@, sa@));
        }
        (ra, da, sa)
    }

    /// Every ancestor of `start`, the term itself included, in ascending
    /// term order.
    pub fn get_ancestors(&self, start: usize) -> (r: Vec<usize>)
        requires
            self.wf(),
            start < self.term_count,
        ensures
            forall|i: int|
                0 <= i < r@.len() ==> (#[trigger] r@[i]) < self.term_count && reach(
                    self.dv(),
                    start,
                    r@[i],
                ),
            forall|u: usize|
                u < self.term_count && reach(self.dv(), start, u) ==> r@.contains(u),
            forall|a: int, b: int| 0 <= a < b < r@.len() ==> r@[a] < r@[b],
    {
        let (ra, _, _) = self.propagate(start);
        let mut r: Vec<usize> = Vec::new();
        let mut u: usize = 0;
        while u < self.term_count
            invariant
                u <= self.term_count,
                self.wf(),
                start < self.term_count,
                ra@.len() == self.term_count,
                forall|w: int|
                    0 <= w < self.term_count ==> (#[trigger] ra@[w]) == reach(
                        self.dv(),
                        start,
                        w as usize,
                    ),
                forall|i: int|
                    0 <= i < r@.len() ==> (#[trigger] r@[i]) < u && reach(
                        self.dv(),
                        start,
                        r@[i],
                    ),
                forall|w: usize|
                    w < u && reach(self.dv(), start, w) ==> #[trigger] r@.contains(w),
                forall|a: int, b: int| 0 <= a < b < r@.len() ==> r@[a] < r@[b],
            decreases self.term_count - u,
        {
            let ghost pre = r@;
            if ra[u] {
                r.push(u);
            }
            proof {
                assert forall|w: usize| w < u + 1 && reach(self.dv(), start, w) implies
                    #[trigger] r@.contains(w) by {
                    if w < u {
                        assert(pre.contains(w));
                        let i = choose|i: int| 0 <= i < pre.len() && pre[i] == w;
                        assert(r@[i] == w);
                    } else {
                        assert(ra@[u as int]);
                        assert(r@[r@.len() - 1] == w);
                    }
                }
            }
            u += 1;
        }
        r
    }

    /// The distance from `start` to each of its ancestors: a reachability
    /// flag and the shortest upward path length per term.
    pub fn get_ancestor_distances(&self, start: usize) -> (r: (Vec<bool>, Vec<u64>))
        requires
            self.wf(),
            start < self.term_count,
        ensures
            r.0@.len() == self.term_count,
            r.1@.len() == self.term_count,
            forall|u: int|
                0 <= u < self.term_count ==> (#[trigger] r.0@[u]) == reach(
                    self.dv(),
                    start,
                    u as usize,
                ),
            forall|u: int|
                0 <= u < self.term_count ==> (#[trigger] r.1@[u]) as int == dist(
                    self.dv(),
                    start,
                    u as usize,
                ),
    {
        let (ra, da, _) = self.propagate(start);
        (ra, da)
    }

    /// The lowest common ancestor of `a` and `b`: the common ancestor with
    /// the least distance sum, the smallest such term on a tie, or `None`
    /// when no ancestor is shared.
    pub fn find_lca(&self, a: usize, b: usize) -> (r: Option<usize>)
        requires
            self.wf(),
            a < self.term_count,
            b < self.term_count,
        ensures
            r == lca_spec(self.dv(), a, b),
            r is Some ==> is_lca(self.dv(), a, b, r->Some_0),
            r is None ==> forall|u: usize|
                u < self.term_count ==> !common_anc(self.dv(), a, b, u),
    {
        let (ra, da, _) = self.propagate(a);
        let (rb, db, _) = self.propagate(b);
        let ghost v = self.dv();
        let mut best: Option<usize> = None;
        let mut u: usize = 0;
        while u < self.term_count
            invariant
                u <= self.term_count,
                self.wf(),
                a < self.term_count,
                b < self.term_count,
                v == self.dv(),
                ra@.len() == self.term_count,
                da@.len() == self.term_count,
                rb@.len() == self.term_count,
                db@.len() == self.term_count,
                forall|w: int|
                    0 <= w < self.term_count ==> (#[trigger] ra@[w]) == reach(v, a, w as usize),
                forall|w: int|
                    0 <= w < self.term_count ==> (#[trigger] da@[w]) as int == dist(
                        v,
                        a,
                        w as usize,
                    ),
                forall|w: int|
                    0 <= w < self.term_count ==> (#[trigger] rb@[w]) == reach(v, b, w as usize),
                forall|w: int|
                    0 <= w < self.term_count ==> (#[trigger] db@[w]) as int == dist(
                        v,
                        b,
                        w as usize,
                    ),
                best is None ==> forall|w: usize| w < u ==> !common_anc(v, a, b, w),
                best is Some ==> ({
                    let s = best->Some_0;
                    &&& s < u
                    &&& common_anc(v, a, b, s)
                    &&& (forall|w: usize|
                        w < u && #[trigger] common_anc(v, a, b, w) ==> (dist_sum(v, a, b, s)
                            < dist_sum(v, a, b, w) || (dist_sum(v, a, b, s) == dist_sum(
                            v,
                            a,
                            b,
                            w,
                        ) && s <= w)))
                }),
            decreases self.term_count - u,
        {
            if ra[u] && rb[u] {
                proof {
                    lemma_dist_range_total(v, a, u);
                    lemma_dist_range_total(v, b, u);
                    match best {
                        Option::None => {},
                        Option::Some(s) => {
                            lemma_dist_range_total(v, a, s);
                            lemma_dist_range_total(v, b, s);
                        },
                    }
                }
                let sum = da[u] + db[u];
                match best {
                    None => {
                        best = Some(u);
                    },
                    Some(s) => {
                        let ssum = da[s] + db[s];
                        if sum < ssum {
                            best = Some(u);
                        }
                    },
                }
            } else {
                proof {
                    assert(!common_anc(v, a, b, u));
                }
            }
            u += 1;
        }
        proof {
            match best {
                Option::None => {
                    assert(!(exists|w: usize| #[trigger] is_lca(v, a, b, w))) by {
                        if exists|w: usize| #[trigger] is_lca(v, a, b, w) {
                            let w = choose|w: usize| #[trigger] is_lca(v, a, b, w);
                            assert(common_anc(v, a, b, w));
                        }
                    }
                },
                Option::Some(s) => {
                    assert(is_lca(v, a, b, s));
                    let w0 = choose|w: usize| #[trigger] is_lca(v, a, b, w);
                    assert(is_lca(v, a, b, w0)) by {
                        assert(is_lca(v, a, b, s));
                    }
                    lemma_lca_unique(v, a, b, s, w0);
                },
            }
        }
        best
    }

    /// The lowest common ancestor together with the shortest paths from
    /// both terms up to it, child end first.
    pub fn find_lca_with_paths(&self, a: usize, b: usize) -> (r: Option<
        (usize, Vec<usize>, Vec<usize>),
    >)
        requires
            self.wf(),
            a < self.term_count,
            b < self.term_count,
        ensures
            r is Some <==> lca_spec(self.dv(), a, b) is Some,
            r is Some ==> ({
                let (l, p1, p2) = r->Some_0;
                &&& Some(l) == lca_spec(self.dv(), a, b)
                &&& p1@ == path_spec(self.dv(), a, l)
                &&& p2@ == path_spec(self.dv(), b, l)
            }),
    {
        match self.find_lca(a, b) {
            None => None,
            Some(l) => {
                let p1 = self.build_path(a, l);
                let p2 = self.build_path(b, l);
                Some((l, p1, p2))
            },
        }
    }

    /// The shortest path from `t` up to its ancestor `end`, child end
    /// first, stepping through the first child that sits one nearer.
    pub fn build_path(&self, t: usize, end: usize) -> (r: Vec<usize>)
        requires
            self.wf(),
            t < self.term_count,
            end < self.term_count,
            reach(self.dv(), t, end),
        ensures
            r@ == path_spec(self.dv(), t, end),
            forall|i: int|
                0 <= i < r@.len() ==> (#[trigger] r@[i]) < self.term_count && reach(
                    self.dv(),
                    t,
                    r@[i],
                ),
            r@.len() >= 1,
    {
        let ghost v = self.dv();
        let (ra, da, _) = self.propagate(t);
        let mut rev: Vec<usize> = Vec::new();
        let mut cur = end;
        rev.push(cur);
        proof {
            lemma_dist_bounds(v, t, end);
            lemma_path_props(v, t, end);
        }
        while cur != t
            invariant
                self.wf(),
                t < self.term_count,
                cur < self.term_count,
                end < self.term_count,
                v == self.dv(),
                reach(v, t, cur),
                reach(v, t, end),
                ra@.len() == self.term_count,
                da@.len() == self.term_count,
                forall|w: int|
                    0 <= w < self.term_count ==> (#[trigger] ra@[w]) == reach(v, t, w as usize),
                forall|w: int|
                    0 <= w < self.term_count ==> (#[trigger] da@[w]) as int == dist(
                        v,
                        t,
                        w as usize,
                    ),
                rev@.len() >= 1,
                rev@.len() == dist(v, t, end) - dist(v, t, cur) + 1,
                rev@[rev@.len() - 1] == cur,
                // the reversed path collected so far
                forall|i: int|
                    0 <= i < rev@.len() ==> (#[trigger] rev@[i]) == path_spec(v, t, end)[
                    path_spec(v, t, end).len() - 1 - i],
                path_spec(v, t, end).len() == dist(v, t, end) + 1,
                forall|i: int|
                    0 <= i < rev@.len() ==> (#[trigger] rev@[i]) < self.term_count && reach(
                        v,
                        t,
                        rev@[i],
                    ),
            decreases dist(v, t, cur),
        {
            proof {
                lemma_pred_exists(v, t, cur);
                lemma_dist_bounds(v, t, cur);
                lemma_path_unfold(v, t, end, cur, rev@.len() as int);
            }
            let deg = self.children[cur].len();
            let mut j: usize = 0;
            let mut nxt: usize = 0;
            let mut found = false;
            while j < deg
                invariant
                    j <= deg,
                    self.wf(),
                    t < self.term_count,
                    cur < self.term_count,
                    cur != t,
                    v == self.dv(),
                    reach(v, t, cur),
                    deg == v.cs[cur as int].len(),
                    ra@.len() == self.term_count,
                    da@.len() == self.term_count,
                    forall|w: int|
                        0 <= w < self.term_count ==> (#[trigger] ra@[w]) == reach(
                            v,
                            t,
                            w as usize,
                        ),
                    forall|w: int|
                        0 <= w < self.term_count ==> (#[trigger] da@[w]) as int == dist(
                            v,
                            t,
                            w as usize,
                        ),
                    !found ==> pred_at(v, t, cur, j as int) == -1,
                    found ==> (pred_at(v, t, cur, j as int) >= 0 && nxt == v.cs[cur as int][
                    pred_at(v, t, cur, j as int)]),
                decreases deg - j,
            {
                if !found {
                    let x = self.children[cur][j];
                    proof {
                        assert(v.cs[cur as int][j as int] == x);
                        assert((v.pos[x as int] as int) < v.pos[cur as int] as int);
                        lemma_dist_range_total(v, t, x);
                    }
                    if ra[x] && da[x] + 1 == da[cur] {
                        nxt = x;
                        found = true;
                    }
                }
                j += 1;
            }
            proof {
                lemma_pred_exists(v, t, cur);
                if !found {
                    assert(pred_at(v, t, cur, deg as int) == -1);
                    assert(false);
                }
                assert(nxt == pred_spec(v, t, cur));
            }
            cur = nxt;
            rev.push(cur);
            proof {
                assert(rev@[rev@.len() - 1] == cur);
                lemma_dist_bounds(v, t, cur);
            }
        }
        // reverse into child-first order
        let mut r: Vec<usize> = Vec::new();
        let mut i: usize = rev.len();
        proof {
            assert(dist(v, t, t) == 0);
            assert(rev@.len() == path_spec(v, t, end).len());
        }
        while i > 0
            invariant
                i <= rev@.len(),
                rev@.len() == path_spec(v, t, end).len(),
                r@.len() == rev@.len() - i,
                forall|k: int|
                    0 <= k < rev@.len() ==> (#[trigger] rev@[k]) == path_spec(v, t, end)[
                    path_spec(v, t, end).len() - 1 - k],
                forall|k: int| 0 <= k < r@.len() ==> (#[trigger] r@[k]) == path_spec(v, t, end)[k],
                forall|k: int|
                    0 <= k < rev@.len() ==> (#[trigger] rev@[k]) < self.term_count && reach(
                        v,
                        t,
                        rev@[k],
                    ),
                v == self.dv(),
            decreases i,
        {
            i -= 1;
            r.push(rev[i]);
        }
        proof {
            assert(r@ =~= path_spec(v, t, end));
            lemma_path_props(v, t, end);
        }
        r
    }
}

/// Walking one predecessor step extends the collected reversed path: the
/// entry `steps` from the end of the path is the predecessor of the entry
/// before it.
proof fn lemma_path_unfold(v: DagView, t: usize, end: usize, cur: usize, steps: int)
    requires
        dv_wf(v),
        (t as int) < v.n,
        (end as int) < v.n,
        (cur as int) < v.n,
        reach(v, t, end),
        reach(v, t, cur),
        cur != t,
        steps == dist(v, t, end) - dist(v, t, cur) + 1,
        steps >= 1,
        path_spec(v, t, end).len() == dist(v, t, end) + 1,
        path_spec(v, t, end)[path_spec(v, t, end).len() - steps] == cur,
    ensures
        path_spec(v, t, end)[path_spec(v, t, end).len() - steps - 1] == pred_spec(v, t, cur),
        dist(v, t, pred_spec(v, t, cur)) == dist(v, t, cur) - 1,
        reach(v, t, pred_spec(v, t, cur)),
        ((pred_spec(v, t, cur) as int)) < v.n,
    decreases steps,
{
    lemma_pred_exists(v, t, cur);
    lemma_path_props(v, t, end);
    assert(dist(v, t, cur) >= 1) by {
        lemma_reach_any_dist(v, t, cur, v.cs[cur as int].len() as int);
    }
    assert(path_spec(v, t, end).len() - steps >= 1);
    lemma_path_mid(v, t, end, path_spec(v, t, end).len() - steps);
}

/// Shape of a shortest path: it starts at `t`, ends at its target, holds
/// one reachable node per distance step, each at its distance.
pub proof fn lemma_path_props(v: DagView, t: usize, u: usize)
    requires
        dv_wf(v),
        (t as int) < v.n,
        (u as int) < v.n,
        reach(v, t, u),
    ensures
        path_spec(v, t, u).len() == dist(v, t, u) + 1,
        path_spec(v, t, u)[0] == t,
        path_spec(v, t, u).last() == u,
        forall|i: int|
            0 <= i < path_spec(v, t, u).len() ==> ((#[trigger] path_spec(v, t, u)[i]) as int)
                < v.n && reach(v, t, path_spec(v, t, u)[i]) && dist(
                v,
                t,
                path_spec(v, t, u)[i],
            ) == i,
    decreases dist(v, t, u),
{
    lemma_dist_bounds(v, t, u);
    if u == t {
        assert(path_spec(v, t, u) == seq![t]);
    } else {
        lemma_pred_exists(v, t, u);
        let p = pred_spec(v, t, u);
        assert((p as int) < v.n);
        assert(reach(v, t, p));
        assert(dist(v, t, p) < dist(v, t, u));
        lemma_dist_bounds(v, t, p);
        lemma_path_props(v, t, p);
    }
}

/// Inside a shortest path, each node's predecessor on the path is the
/// predecessor the path was built through.
proof fn lemma_path_mid(v: DagView, t: usize, u: usize, i: int)
    requires
        dv_wf(v),
        (t as int) < v.n,
        (u as int) < v.n,
        reach(v, t, u),
        1 <= i < path_spec(v, t, u).len(),
    ensures
        path_spec(v, t, u)[i - 1] == pred_spec(v, t, path_spec(v, t, u)[i]),
    decreases dist(v, t, u),
{
    lemma_path_props(v, t, u);
    lemma_dist_bounds(v, t, u);
    if u != t {
        lemma_pred_exists(v, t, u);
        let p = pred_spec(v, t, u);
        assert((p as int) < v.n);
        assert(dist(v, t, p) < dist(v, t, u));
        lemma_dist_bounds(v, t, p);
        lemma_path_props(v, t, p);
        if i == path_spec(v, t, u).len() - 1 {
            assert(path_spec(v, t, u)[i] == u);
            assert(path_spec(v, t, u)[i - 1] == path_spec(v, t, p).last());
        } else {
            lemma_path_mid(v, t, p, i);
            assert(path_spec(v, t, u)[i] == path_spec(v, t, p)[i]);
            assert(path_spec(v, t, u)[i - 1] == path_spec(v, t, p)[i - 1]);
        }
    }
}

/// A path sum dominates the semantic value of each node on the path.
pub proof fn lemma_path_sum_elem(v: DagView, t: usize, path: Seq<usize>, i: int)
    requires
        dv_wf(v),
        (t as int) < v.n,
        0 <= i < path.len(),
        forall|k: int| 0 <= k < path.len() ==> ((#[trigger] path[k]) as int) < v.n,
    ensures
        path_sv_sum(v, t, path) >= sv(v, t, path[i]),
        path_sv_sum(v, t, path) >= 0,
    decreases path.len(),
{
    if path.len() > 0 {
        lemma_sv_bounds(v, t, path.last());
        if i == path.len() - 1 {
            lemma_path_sum_nonneg(v, t, path.drop_last());
        } else {
            assert(path.drop_last()[i] == path[i]);
            lemma_path_sum_elem(v, t, path.drop_last(), i);
        }
    }
}

/// Path sums of in-range nodes are never negative and grow at most by one
/// semantic value per node.
pub proof fn lemma_path_sum_nonneg(v: DagView, t: usize, path: Seq<usize>)
    requires
        dv_wf(v),
        (t as int) < v.n,
        forall|k: int| 0 <= k < path.len() ==> ((#[trigger] path[k]) as int) < v.n,
    ensures
        0 <= path_sv_sum(v, t, path) <= path.len() * (SCALE as int),
    decreases path.len(),
{
    if path.len() > 0 {
        lemma_path_sum_nonneg(v, t, path.drop_last());
        lemma_sv_bounds(v, t, path.last());
        assert((path.len() - 1) * (SCALE as int) + SCALE == path.len() * (SCALE as int))
            by (nonlinear_arith);
    }
}

/// Terms with no shared ancestor have similarity zero.
pub proof fn lemma_term_sim_no_common(v: DagView, a: usize, b: usize)
    requires
        forall|u: usize| (u as int) < v.n ==> !common_anc(v, a, b, u),
    ensures
        term_sim(v, a, b) == 0,
{
    if lca_spec(v, a, b) is Some {
        let u = choose|u: usize| #[trigger] is_lca(v, a, b, u);
        assert(common_anc(v, a, b, u));
    }
}

/// The ancestor-based term similarity is the same in both directions.
/// This holds of cached and uncached queries alike, since both return
/// exactly this function of the structure.
pub proof fn lemma_term_sim_symmetric(v: DagView, a: usize, b: usize)
    requires
        dv_wf(v),
        (a as int) < v.n,
        (b as int) < v.n,
    ensures
        term_sim(v, a, b) == term_sim(v, b, a),
{
    assert forall|u: usize| #[trigger] is_lca(v, a, b, u) implies is_lca(v, b, a, u) by {
        assert forall|w: usize|
            (w as int) < v.n && #[trigger] common_anc(v, b, a, w) implies (dist_sum(v, b, a, u)
            < dist_sum(v, b, a, w) || (dist_sum(v, b, a, u) == dist_sum(v, b, a, w) && u
            <= w)) by {
            assert(common_anc(v, a, b, w));
        }
    }
    assert forall|u: usize| #[trigger] is_lca(v, b, a, u) implies is_lca(v, a, b, u) by {
        assert forall|w: usize|
            (w as int) < v.n && #[trigger] common_anc(v, a, b, w) implies (dist_sum(v, a, b, u)
            < dist_sum(v, a, b, w) || (dist_sum(v, a, b, u) == dist_sum(v, a, b, w) && u
            <= w)) by {
            assert(common_anc(v, b, a, w));
        }
    }
    match lca_spec(v, a, b) {
        Option::None => {
            assert(lca_spec(v, b, a) is None) by {
                if exists|u: usize| #[trigger] is_lca(v, b, a, u) {
                    let u = choose|u: usize| #[trigger] is_lca(v, b, a, u);
                    assert(is_lca(v, a, b, u));
                }
            }
        },
        Option::Some(l) => {
            let c1 = choose|u: usize| #[trigger] is_lca(v, a, b, u);
            assert(is_lca(v, b, a, c1));
            let c2 = choose|u: usize| #[trigger] is_lca(v, b, a, u);
            lemma_lca_unique(v, b, a, c1, c2);
            assert(lca_spec(v, b, a) == Some(l));
        },
    }
}

/// The descendant-based term similarity is the same in both directions.
pub proof fn lemma_term_sim_child_symmetric(v: DagView, a: usize, b: usize)
    ensures
        term_sim_child(v, a, b) == term_sim_child(v, b, a),
{
    lemma_desc_counts_symmetric(v, a, b, v.n);
}

/// Shared and union descendant counts do not depend on the order of the
/// two terms.
proof fn lemma_desc_counts_symmetric(v: DagView, a: usize, b: usize, j: int)
    ensures
        desc_common_count(v, a, b, j) == desc_common_count(v, b, a, j),
        desc_union_count(v, a, b, j) == desc_union_count(v, b, a, j),
    decreases j,
{
    if j > 0 {
        lemma_desc_counts_symmetric(v, a, b, j - 1);
    }
}

/// The highest similarity `g1` reaches against the first `j` terms of the
/// other protein.
pub open spec fn max_sim(v: DagView, g1: usize, gos2: Seq<usize>, j: int) -> int
    decreases j,
{
    if j <= 0 {
        0
    } else {
        let m = max_sim(v, g1, gos2, j - 1);
        let s = term_sim(v, g1, gos2[j - 1]);
        if s > m {
            s
        } else {
            m
        }
    }
}

/// The sum over the first `j` terms of one protein of their best
/// similarity against the other protein's terms.
pub open spec fn sum_max(v: DagView, gos1: Seq<usize>, gos2: Seq<usize>, j: int) -> int
    decreases j,
{
    if j <= 0 {
        0
    } else {
        sum_max(v, gos1, gos2, j - 1) + max_sim(v, gos1[j - 1], gos2, gos2.len() as int)
    }
}

/// The ancestor-based functional similarity of two annotated proteins:
/// each term of one side contributes its best similarity against the other
/// side, and the two sums are averaged over the total term count.
pub open spec fn fsim(v: DagView, gos1: Seq<usize>, gos2: Seq<usize>) -> int {
    if gos1.len() == 0 || gos2.len() == 0 {
        0
    } else {
        (sum_max(v, gos1, gos2, gos1.len() as int) + sum_max(v, gos2, gos1, gos2.len() as int))
            / (gos1.len() + gos2.len()) as int
    }
}

/// The descendant-based analogues.
pub open spec fn max_sim_child(v: DagView, g1: usize, gos2: Seq<usize>, j: int) -> int
    decreases j,
{
    if j <= 0 {
        0
    } else {
        let m = max_sim_child(v, g1, gos2, j - 1);
        let s = term_sim_child(v, g1, gos2[j - 1]);
        if s > m {
            s
        } else {
            m
        }
    }
}

/// The descendant-based sum of best similarities.
pub open spec fn sum_max_child(v: DagView, gos1: Seq<usize>, gos2: Seq<usize>, j: int) -> int
    decreases j,
{
    if j <= 0 {
        0
    } else {
        sum_max_child(v, gos1, gos2, j - 1) + max_sim_child(
            v,
            gos1[j - 1],
            gos2,
            gos2.len() as int,
        )
    }
}

/// The descendant-based functional similarity: zero when the two term sets
/// share no term, the same aggregation otherwise.
pub open spec fn fsim_child(v: DagView, gos1: Seq<usize>, gos2: Seq<usize>) -> int {
    if gos1.to_set().intersect(gos2.to_set()).len() == 0 {
        0
    } else {
        (sum_max_child(v, gos1, gos2, gos1.len() as int) + sum_max_child(
            v,
            gos2,
            gos1,
            gos2.len() as int,
        )) / (gos1.len() + gos2.len()) as int
    }
}

/// Whether the annotations name the protein `l`.
pub open spec fn pgo_has(pg: Seq<(String, Vec<usize>)>, l: Seq<char>) -> bool {
    exists|t: int| 0 <= t < pg.len() && (#[trigger] pg[t]).0@ == l
}

/// The term list of protein `l` (meaningful when named once).
pub open spec fn pgo_terms(pg: Seq<(String, Vec<usize>)>, l: Seq<char>) -> Seq<usize> {
    pg[choose|t: int| 0 <= t < pg.len() && (#[trigger] pg[t]).0@ == l].1@
}

/// Distances are always within `[0, n + 1]`.
pub proof fn lemma_dist_range_total(v: DagView, t: usize, u: usize)
    requires
        dv_wf(v),
        (t as int) < v.n,
        (u as int) < v.n,
    ensures
        0 <= dist(v, t, u) <= v.n + 1,
{
    if u != t {
        lemma_dist_min_range(v, t, u, v.cs[u as int].len() as int);
    }
}

/// What every similarity query preserves: the structure, the order, and
/// the annotations; only the caches may grow.
pub open spec fn same_structure(pre: Dag, post: Dag) -> bool {
    &&& post.term_count == pre.term_count
    &&& post.parents == pre.parents
    &&& post.children == pre.children
    &&& post.topo_pos == pre.topo_pos
    &&& post.order == pre.order
    &&& post.order_inv == pre.order_inv
    &&& post.protein_go == pre.protein_go
    &&& post.dv() == pre.dv()
}

impl Dag {
    /// The ancestor-based similarity of two terms, memoized over unordered
    /// pairs.  Returns exactly the similarity function of the structure,
    /// whether the pair was cached or is computed and cached now.
    pub fn get_sim(&mut self, a: usize, b: usize) -> (r: u64)
        requires
            old(self).wf(),
            a < old(self).term_count,
            b < old(self).term_count,
        ensures
            final(self).wf(),
            same_structure(*old(self), *final(self)),
            r as int == term_sim(old(self).dv(), a, b),
            r <= SCALE,
    {
        let ghost v = self.dv();
        let mut e: usize = 0;
        while e < self.sim_cache.len()
            invariant
                e <= self.sim_cache@.len(),
                self.wf(),
                a < self.term_count,
                b < self.term_count,
                v == self.dv(),
            decreases self.sim_cache@.len() - e,
        {
            let ((ca, cb), val) = self.sim_cache[e];
            if ca == a && cb == b {
                proof {
                    lemma_term_sim_le_scale(v, a, b);
                }
                return val;
            }
            e += 1;
        }
        let (_, da, sa) = self.propagate(a);
        let (_, db, sb) = self.propagate(b);
        let lca = self.find_lca(a, b);
        let sim: u64 = match lca {
            None => 0,
            Some(l) => {
                let pa = self.build_path(a, l);
                let pb = self.build_path(b, l);
                proof {
                    lemma_lca_common(v, a, b, l);
                    lemma_path_props(v, a, l);
                    lemma_path_props(v, b, l);
                    lemma_dist_bounds(v, a, l);
                    lemma_dist_bounds(v, b, l);
                }
                let suma = path_sum(self, a, &pa, &sa);
                let sumb = path_sum(self, b, &pb, &sb);
                proof {
                    lemma_path_props(v, a, l);
                    lemma_path_props(v, b, l);
                    lemma_path_sum_elem(v, a, pa@, pa@.len() - 1);
                    lemma_path_sum_elem(v, a, pa@, 0);
                    lemma_path_sum_elem(v, b, pb@, pb@.len() - 1);
                    lemma_path_sum_elem(v, b, pb@, 0);
                    lemma_sv_bounds(v, a, l);
                    lemma_sv_bounds(v, b, l);
                    lemma_dist_range_total(v, a, l);
                    lemma_dist_range_total(v, b, l);
                    crate::fixed::lemma_fraction_bound(
                        sv(v, b, l),
                        path_sv_sum(v, b, pb@),
                        SCALE as int,
                    );
                    crate::fixed::lemma_fraction_bound(
                        sv(v, a, l),
                        path_sv_sum(v, a, pa@),
                        SCALE as int,
                    );
                }
                if da[l] < db[l] {
                    sb[l] * SCALE / sumb
                } else if db[l] < da[l] {
                    sa[l] * SCALE / suma
                } else {
                    let num = if sa[l] >= sb[l] {
                        sa[l]
                    } else {
                        sb[l]
                    };
                    let den = if suma >= sumb {
                        suma
                    } else {
                        sumb
                    };
                    proof {
                        crate::fixed::lemma_fraction_bound(num as int, den as int, SCALE as int);
                    }
                    num * SCALE / den
                }
            },
        };
        proof {
            if lca is None {
                assert(term_sim(v, a, b) == 0);
            }
            lemma_term_sim_symmetric(v, a, b);
        }
        self.sim_cache.push(((a, b), sim));
        self.sim_cache.push(((b, a), sim));
        proof {
            assert forall|k: int| 0 <= k < self.sim_cache@.len() implies ((
            #[trigger] self.sim_cache@[k]).0.0 < self.term_count && self.sim_cache@[k].0.1
                < self.term_count && self.sim_cache@[k].1 == term_sim(
                self.dv(),
                self.sim_cache@[k].0.0,
                self.sim_cache@[k].0.1,
            )) by {
                if k < old(self).sim_cache@.len() {
                    assert(self.sim_cache@[k] == old(self).sim_cache@[k]);
                }
            }
        }
        sim
    }
}

/// The ancestor-based similarity never exceeds one: its numerator is a
/// semantic value on the denominator's path.
pub proof fn lemma_term_sim_le_scale(v: DagView, a: usize, b: usize)
    requires
        dv_wf(v),
        (a as int) < v.n,
        (b as int) < v.n,
    ensures
        0 <= term_sim(v, a, b) <= SCALE,
{
    match lca_spec(v, a, b) {
        Option::None => {},
        Option::Some(l) => {
            lemma_lca_common(v, a, b, l);
            let pa = path_spec(v, a, l);
            let pb = path_spec(v, b, l);
            lemma_path_props(v, a, l);
            lemma_path_props(v, b, l);
            lemma_path_sum_elem(v, a, pa, pa.len() - 1);
            lemma_path_sum_elem(v, a, pa, 0);
            lemma_path_sum_elem(v, b, pb, pb.len() - 1);
            lemma_path_sum_elem(v, b, pb, 0);
            lemma_sv_bounds(v, a, l);
            lemma_sv_bounds(v, b, l);
            crate::fixed::lemma_fraction_bound(sv(v, b, l), path_sv_sum(v, b, pb), SCALE as int);
            crate::fixed::lemma_fraction_bound(sv(v, a, l), path_sv_sum(v, a, pa), SCALE as int);
            let num = if sv(v, a, l) >= sv(v, b, l) {
                sv(v, a, l)
            } else {
                sv(v, b, l)
            };
            let den = if path_sv_sum(v, a, pa) >= path_sv_sum(v, b, pb) {
                path_sv_sum(v, a, pa)
            } else {
                path_sv_sum(v, b, pb)
            };
            crate::fixed::lemma_fraction_bound(num, den, SCALE as int);
        },
    }
}

/// The lowest common ancestor is an ancestor of both terms, so both paths
/// to it exist and both carry the start's full semantic value.
pub proof fn lemma_lca_common(v: DagView, a: usize, b: usize, l: usize)
    requires
        dv_wf(v),
        (a as int) < v.n,
        (b as int) < v.n,
        lca_spec(v, a, b) == Some(l),
    ensures
        (l as int) < v.n,
        reach(v, a, l),
        reach(v, b, l),
{
    assert(exists|u: usize| #[trigger] is_lca(v, a, b, u));
    let c = choose|u: usize| #[trigger] is_lca(v, a, b, u);
}

/// The sum of the semantic values along a path, read off the propagated
/// array.
fn path_sum(d: &Dag, t: usize, path: &Vec<usize>, sa: &Vec<u64>) -> (r: u64)
    requires
        d.wf(),
        t < d.term_count,
        sa@.len() == d.term_count,
        forall|u: int|
            0 <= u < d.term_count ==> (#[trigger] sa@[u]) as int == sv(d.dv(), t, u as usize),
        forall|i: int| 0 <= i < path@.len() ==> (#[trigger] path@[i]) < d.term_count,
        path@.len() <= d.term_count + 1,
    ensures
        r as int == path_sv_sum(d.dv(), t, path@),
{
    let ghost v = d.dv();
    let mut acc: u64 = 0;
    let mut i: usize = 0;
    proof {
        assert(path@.take(0) =~= Seq::<usize>::empty());
    }
    while i < path.len()
        invariant
            i <= path@.len(),
            path@.len() <= d.term_count + 1,
            d.term_count <= MAX_TERM_COUNT,
            v == d.dv(),
            d.wf(),
            t < d.term_count,
            sa@.len() == d.term_count,
            forall|u: int|
                0 <= u < d.term_count ==> (#[trigger] sa@[u]) as int == sv(v, t, u as usize),
            forall|k: int| 0 <= k < path@.len() ==> (#[trigger] path@[k]) < d.term_count,
            acc as int == path_sv_sum(v, t, path@.take(i as int)),
            acc <= i * (SCALE as int),
        decreases path@.len() - i,
    {
        let p = path[i];
        proof {
            assert(path@.take(i + 1).drop_last() =~= path@.take(i as int));
            assert(path@.take(i + 1).last() == path@[i as int]);
            lemma_sv_bounds(v, t, p);
            assert((i as int) * (SCALE as int) + SCALE == (i + 1) * (SCALE as int))
                by (nonlinear_arith);
            assert((i + 1) * (SCALE as int) <= 65_536 * 10_000) by (nonlinear_arith)
                requires
                    0 <= i + 1 <= 65_536,
            ;
        }
        acc = acc + sa[p];
        i += 1;
    }
    proof {
        assert(path@.take(path@.len() as int) =~= path@);
    }
    acc
}

impl Dag {
    /// Per term, whether it is a descendant of `t` or `t` itself.
    fn desc_flags(&self, t: usize) -> (r: Vec<bool>)
        requires
            self.wf(),
            t < self.term_count,
        ensures
            r@.len() == self.term_count,
            forall|u: int|
                0 <= u < self.term_count ==> (#[trigger] r@[u]) == desc(
                    self.dv(),
                    u as usize,
                    t,
                ),
    {
        let ghost v = self.dv();
        let n = self.term_count;
        let mut fl: Vec<bool> = Vec::new();
        let mut i: usize = 0;
        while i < n
            invariant
                i <= n,
                fl@.len() == i,
            decreases n - i,
        {
            fl.push(false);
            i += 1;
        }
        // walk the order backwards, so every parent is done first
        let mut idx: usize = n;
        while idx > 0
            invariant
                idx <= n,
                self.wf(),
                t < n,
                n == self.term_count,
                v == self.dv(),
                fl@.len() == n,
                forall|w: usize|
                    w < n && #[trigger] processed_from(self.order@, idx as int, w) ==> fl@[w
                        as int] == desc(v, w, t),
            decreases idx,
        {
            idx -= 1;
            let u = self.order[idx];
            let ghost ps = v.ps[u as int];
            if u == t {
                fl.set(u, true);
            } else {
                let deg = self.parents[u].len();
                let mut any = false;
                let mut j: usize = 0;
                while j < deg
                    invariant
                        j <= deg,
                        self.wf(),
                        t < n,
                        u != t,
                        u < n,
                        idx < n,
                        u == self.order@[idx as int],
                        n == self.term_count,
                        v == self.dv(),
                        ps == v.ps[u as int],
                        deg == ps.len(),
                        fl@.len() == n,
                        forall|w: usize|
                            w < n && #[trigger] processed_from(self.order@, idx + 1, w) ==> fl@[w
                                as int] == desc(v, w, t),
                        any == desc_any(v, u, t, j as int),
                    decreases deg - j,
                {
                    let p = self.parents[u][j].0;
                    proof {
                        assert(ps[j as int].0 == p);
                        assert((v.pos[u as int] as int) < v.pos[p as int] as int);
                        let ip = self.order_inv@[p as int] as int;
                        assert(self.order@[ip] == p);
                        if ip <= idx {
                            assert((v.pos[self.order@[ip] as int] as int) <= v.pos[self.order@[
                            idx as int] as int] as int);
                        }
                        assert(processed_from(self.order@, idx + 1, p));
                    }
                    if fl[p] {
                        any = true;
                    }
                    j += 1;
                }
                fl.set(u, any);
            }
            proof {
                assert forall|w: usize|
                    w < n && #[trigger] processed_from(self.order@, idx as int, w) implies fl@[w
                    as int] == desc(v, w, t) by {
                    let i2 = choose|i2: int|
                        idx <= i2 < self.order@.len() && self.order@[i2] == w;
                    if i2 > idx {
                        assert(processed_from(self.order@, idx + 1, w));
                        if w == u {
                            assert(self.order@[i2] == self.order@[idx as int]);
                        }
                    } else {
                        assert(w == u);
                        if u == t {
                            assert(desc(v, u, t));
                        }
                    }
                }
            }
        }
        proof {
            assert forall|u: int| 0 <= u < n implies #[trigger] processed_from(
                self.order@,
                0,
                u as usize,
            ) by {
                let ix = self.order_inv@[u] as int;
                assert(self.order@[ix] == u as usize);
            }
            assert forall|u: int| 0 <= u < n implies (#[trigger] fl@[u]) == desc(
                v,
                u as usize,
                t,
            ) by {
                let w = u as usize;
                assert(processed_from(self.order@, 0, w));
                assert((w as int) == u);
            }
        }
        fl
    }

    /// The descendant-based similarity of two terms, memoized: the union of
    /// the two proper-descendant sets over their intersection, zero when
    /// either set or the intersection is empty.
    pub fn get_sim_child(&mut self, a: usize, b: usize) -> (r: u64)
        requires
            old(self).wf(),
            a < old(self).term_count,
            b < old(self).term_count,
        ensures
            final(self).wf(),
            same_structure(*old(self), *final(self)),
            r as int == term_sim_child(old(self).dv(), a, b),
    {
        let ghost v = self.dv();
        let mut e: usize = 0;
        while e < self.sim_child_cache.len()
            invariant
                e <= self.sim_child_cache@.len(),
                self.wf(),
                a < self.term_count,
                b < self.term_count,
                v == self.dv(),
            decreases self.sim_child_cache@.len() - e,
        {
            let ((ca, cb), val) = self.sim_child_cache[e];
            if ca == a && cb == b {
                return val;
            }
            e += 1;
        }
        let fa = self.desc_flags(a);
        let fb = self.desc_flags(b);
        let n = self.term_count;
        let mut ca: u64 = 0;
        let mut cb: u64 = 0;
        let mut com: u64 = 0;
        let mut uni: u64 = 0;
        let mut u: usize = 0;
        while u < n
            invariant
                u <= n,
                n == self.term_count,
                n <= MAX_TERM_COUNT,
                self.wf(),
                a < n,
                b < n,
                v == self.dv(),
                fa@.len() == n,
                fb@.len() == n,
                forall|w: int| 0 <= w < n ==> (#[trigger] fa@[w]) == desc(v, w as usize, a),
                forall|w: int| 0 <= w < n ==> (#[trigger] fb@[w]) == desc(v, w as usize, b),
                ca as int == desc_count(v, a, u as int),
                cb as int == desc_count(v, b, u as int),
                com as int == desc_common_count(v, a, b, u as int),
                uni as int == desc_union_count(v, a, b, u as int),
                ca <= u && cb <= u && com <= u && uni <= u,
            decreases n - u,
        {
            let ina = u != a && fa[u];
            let inb = u != b && fb[u];
            if ina {
                ca += 1;
            }
            if inb {
                cb += 1;
            }
            if ina && inb {
                com += 1;
            }
            if ina || inb {
                uni += 1;
            }
            u += 1;
        }
        let sim: u64 = if ca == 0 || cb == 0 || com == 0 {
            0
        } else {
            proof {
                crate::fixed::lemma_mul_le_bound(uni as int, SCALE as int, 65_535, 10_000);
            }
            uni * SCALE / com
        };
        proof {
            lemma_term_sim_child_symmetric(v, a, b);
        }
        self.sim_child_cache.push(((a, b), sim));
        self.sim_child_cache.push(((b, a), sim));
        proof {
            assert forall|k: int| 0 <= k < self.sim_child_cache@.len() implies ((
            #[trigger] self.sim_child_cache@[k]).0.0 < self.term_count
                && self.sim_child_cache@[k].0.1 < self.term_count && self.sim_child_cache@[k].1
                == term_sim_child(
                self.dv(),
                self.sim_child_cache@[k].0.0,
                self.sim_child_cache@[k].0.1,
            )) by {
                if k < old(self).sim_child_cache@.len() {
                    assert(self.sim_child_cache@[k] == old(self).sim_child_cache@[k]);
                }
            }
        }
        sim
    }
}

/// Whether `w` appears at position `idx` or later in the order.
pub open spec fn processed_from(order: Seq<usize>, idx: int, w: usize) -> bool {
    exists|i: int| idx <= i < order.len() && order[i] == w
}

/// Best similarities are bounded like term similarities.
pub proof fn lemma_max_sim_le_scale(v: DagView, g1: usize, gos2: Seq<usize>, j: int)
    requires
        dv_wf(v),
        (g1 as int) < v.n,
        0 <= j <= gos2.len(),
        forall|k: int| 0 <= k < gos2.len() ==> ((#[trigger] gos2[k]) as int) < v.n,
    ensures
        0 <= max_sim(v, g1, gos2, j) <= SCALE,
    decreases j,
{
    if j > 0 {
        lemma_max_sim_le_scale(v, g1, gos2, j - 1);
        lemma_term_sim_le_scale(v, g1, gos2[j - 1]);
    }
}

/// Sums of best similarities are bounded by the term count times one.
pub proof fn lemma_sum_max_bound(v: DagView, gos1: Seq<usize>, gos2: Seq<usize>, j: int)
    requires
        dv_wf(v),
        0 <= j <= gos1.len(),
        forall|k: int| 0 <= k < gos1.len() ==> ((#[trigger] gos1[k]) as int) < v.n,
        forall|k: int| 0 <= k < gos2.len() ==> ((#[trigger] gos2[k]) as int) < v.n,
    ensures
        0 <= sum_max(v, gos1, gos2, j) <= j * (SCALE as int),
    decreases j,
{
    if j > 0 {
        lemma_sum_max_bound(v, gos1, gos2, j - 1);
        lemma_max_sim_le_scale(v, gos1[j - 1], gos2, gos2.len() as int);
        assert((j - 1) * (SCALE as int) + SCALE == j * (SCALE as int)) by (nonlinear_arith);
    }
}

/// The descendant-based term similarity is bounded by the term count.
pub proof fn lemma_term_sim_child_bound(v: DagView, a: usize, b: usize)
    requires
        dv_wf(v),
    ensures
        0 <= term_sim_child(v, a, b) <= v.n * (SCALE as int),
{
    lemma_desc_count_bounds(v, a, b, v.n);
    if !(desc_count(v, a, v.n) == 0 || desc_count(v, b, v.n) == 0 || desc_common_count(
        v,
        a,
        b,
        v.n,
    ) == 0) {
        assert(desc_union_count(v, a, b, v.n) * (SCALE as int) / desc_common_count(v, a, b, v.n)
            <= v.n * (SCALE as int)) by (nonlinear_arith)
            requires
                0 <= desc_union_count(v, a, b, v.n) <= v.n,
                1 <= desc_common_count(v, a, b, v.n),
                SCALE == 10_000,
        ;
    }
}

/// Descendant counts are bounded by the index range.
pub proof fn lemma_desc_count_bounds(v: DagView, a: usize, b: usize, j: int)
    requires
        0 <= j,
    ensures
        0 <= desc_count(v, a, j) <= j,
        0 <= desc_count(v, b, j) <= j,
        0 <= desc_common_count(v, a, b, j) <= j,
        0 <= desc_union_count(v, a, b, j) <= j,
    decreases j,
{
    if j > 0 {
        lemma_desc_count_bounds(v, a, b, j - 1);
    }
}

/// Descendant-based best similarities and their sums are bounded.
pub proof fn lemma_max_sim_child_bound(v: DagView, g1: usize, gos2: Seq<usize>, j: int)
    requires
        dv_wf(v),
        0 <= j <= gos2.len(),
    ensures
        0 <= max_sim_child(v, g1, gos2, j) <= v.n * (SCALE as int),
    decreases j,
{
    if j > 0 {
        lemma_max_sim_child_bound(v, g1, gos2, j - 1);
        lemma_term_sim_child_bound(v, g1, gos2[j - 1]);
    }
}

/// Sums of descendant-based best similarities are bounded.
pub proof fn lemma_sum_max_child_bound(v: DagView, gos1: Seq<usize>, gos2: Seq<usize>, j: int)
    requires
        dv_wf(v),
        0 <= j <= gos1.len(),
    ensures
        0 <= sum_max_child(v, gos1, gos2, j) <= j * (v.n * (SCALE as int)),
    decreases j,
{
    if j > 0 {
        lemma_sum_max_child_bound(v, gos1, gos2, j - 1);
        lemma_max_sim_child_bound(v, gos1[j - 1], gos2, gos2.len() as int);
        assert((j - 1) * (v.n * (SCALE as int)) + v.n * (SCALE as int) == j * (v.n * (
        SCALE as int))) by (nonlinear_arith);
    }
}

/// Copy a term list out of the annotations.
fn copy_ids(s: &Vec<usize>) -> (r: Vec<usize>)
    ensures
        r@ == s@,
{
    let mut r: Vec<usize> = Vec::new();
    let mut j: usize = 0;
    while j < s.len()
        invariant
            j <= s@.len(),
            r@ == s@.take(j as int),
        decreases s@.len() - j,
    {
        r.push(s[j]);
        proof {
            assert(s@.take(j as int).push(s@[j as int]) =~= s@.take(j + 1));
        }
        j += 1;
    }
    proof {
        assert(s@.take(s@.len() as int) =~= s@);
    }
    r
}

impl Dag {
    /// The position of a protein in the annotations.
    fn find_protein(&self, p: &String) -> (r: Option<usize>)
        requires
            self.wf(),
        ensures
            r is Some <==> pgo_has(self.protein_go@, p@),
            r is Some ==> (r->Some_0 as int) < self.protein_go@.len()
                && self.protein_go@[r->Some_0 as int].0@ == p@ && self.protein_go@[r->Some_0
                as int].1@ == pgo_terms(self.protein_go@, p@),
    {
        let mut t: usize = 0;
        while t < self.protein_go.len()
            invariant
                t <= self.protein_go@.len(),
                self.wf(),
                forall|u: int| 0 <= u < t ==> (#[trigger] self.protein_go@[u]).0@ != p@,
            decreases self.protein_go@.len() - t,
        {
            if self.protein_go[t].0 == *p {
                proof {
                    let u = choose|u: int|
                        0 <= u < self.protein_go@.len() && (#[trigger] self.protein_go@[u]).0@
                            == p@;
                    assert(u == t);
                }
                return Some(t);
            }
            t += 1;
        }
        None
    }

    /// The ancestor-based functional similarity of two proteins: zero when
    /// either is unannotated, the averaged best-match sum otherwise.
    pub fn get_function_sim(&mut self, p1: &String, p2: &String) -> (r: u64)
        requires
            old(self).wf(),
        ensures
            final(self).wf(),
            same_structure(*old(self), *final(self)),
            !(pgo_has(old(self).protein_go@, p1@) && pgo_has(old(self).protein_go@, p2@)) ==> r
                == 0,
            pgo_has(old(self).protein_go@, p1@) && pgo_has(old(self).protein_go@, p2@) ==> r
                as int == fsim(
                old(self).dv(),
                pgo_terms(old(self).protein_go@, p1@),
                pgo_terms(old(self).protein_go@, p2@),
            ),
            r <= SCALE,
    {
        let ghost v = self.dv();
        let e1 = self.find_protein(p1);
        let e2 = self.find_protein(p2);
        match (e1, e2) {
            (Some(i1), Some(i2)) => {
                let gos1 = copy_ids(&self.protein_go[i1].1);
                let gos2 = copy_ids(&self.protein_go[i2].1);
                proof {
                    crate::graph::lemma_distinct_ids_bound(gos1@, self.term_count as int);
                    crate::graph::lemma_distinct_ids_bound(gos2@, self.term_count as int);
                }
                if gos1.len() == 0 || gos2.len() == 0 {
                    return 0;
                }
                let sum1 = self.sum_of_best(&gos1, &gos2);
                let sum2 = self.sum_of_best(&gos2, &gos1);
                proof {
                    lemma_sum_max_bound(v, gos1@, gos2@, gos1@.len() as int);
                    lemma_sum_max_bound(v, gos2@, gos1@, gos2@.len() as int);
                    assert((gos1@.len() + gos2@.len()) * (SCALE as int) >= (gos1@.len() as int)
                        * (SCALE as int) + (gos2@.len() as int) * (SCALE as int))
                        by (nonlinear_arith);
                    assert(((gos1@.len() + gos2@.len()) as int) * (SCALE as int) / ((gos1@.len()
                        + gos2@.len()) as int) == SCALE) by (nonlinear_arith)
                        requires
                            gos1@.len() + gos2@.len() >= 1,
                            SCALE == 10_000,
                    ;
                    crate::fixed::lemma_div_le_dividend(
                        sum_max(v, gos1@, gos2@, gos1@.len() as int) + sum_max(
                            v,
                            gos2@,
                            gos1@,
                            gos2@.len() as int,
                        ),
                        (gos1@.len() + gos2@.len()) as int,
                    );
                    lemma_div_mono(
                        sum_max(v, gos1@, gos2@, gos1@.len() as int) + sum_max(
                            v,
                            gos2@,
                            gos1@,
                            gos2@.len() as int,
                        ),
                        ((gos1@.len() + gos2@.len()) as int) * (SCALE as int),
                        (gos1@.len() + gos2@.len()) as int,
                    );
                }
                (sum1 + sum2) / ((gos1.len() + gos2.len()) as u64)
            },
            _ => 0,
        }
    }

    /// The sum over `gos1` of each term's best ancestor-based similarity
    /// against `gos2`.
    fn sum_of_best(&mut self, gos1: &Vec<usize>, gos2: &Vec<usize>) -> (r: u64)
        requires
            old(self).wf(),
            forall|k: int|
                0 <= k < gos1@.len() ==> (#[trigger] gos1@[k]) < old(self).term_count,
            forall|k: int|
                0 <= k < gos2@.len() ==> (#[trigger] gos2@[k]) < old(self).term_count,
            gos1@.len() <= MAX_TERM_COUNT,
        ensures
            final(self).wf(),
            same_structure(*old(self), *final(self)),
            r as int == sum_max(old(self).dv(), gos1@, gos2@, gos1@.len() as int),
    {
        let ghost v = self.dv();
        let mut acc: u64 = 0;
        let mut i: usize = 0;
        while i < gos1.len()
            invariant
                i <= gos1@.len(),
                gos1@.len() <= MAX_TERM_COUNT,
                self.wf(),
                v == self.dv(),
                same_structure(*old(self), *self),
                forall|k: int|
                    0 <= k < gos1@.len() ==> (#[trigger] gos1@[k]) < self.term_count,
                forall|k: int|
                    0 <= k < gos2@.len() ==> (#[trigger] gos2@[k]) < self.term_count,
                acc as int == sum_max(v, gos1@, gos2@, i as int),
                acc <= i * SCALE,
            decreases gos1@.len() - i,
        {
            let g1 = gos1[i];
            let mut best: u64 = 0;
            let mut j: usize = 0;
            while j < gos2.len()
                invariant
                    j <= gos2@.len(),
                    self.wf(),
                    v == self.dv(),
                    same_structure(*old(self), *self),
                    g1 < self.term_count,
                    forall|k: int|
                        0 <= k < gos2@.len() ==> (#[trigger] gos2@[k]) < self.term_count,
                    best as int == max_sim(v, g1, gos2@, j as int),
                    best <= SCALE,
                decreases gos2@.len() - j,
            {
                let s = self.get_sim(g1, gos2[j]);
                if s > best {
                    best = s;
                }
                j += 1;
            }
            proof {
                assert((i as int) * SCALE + SCALE == (i + 1) * SCALE) by (nonlinear_arith);
                assert((i + 1) * SCALE <= 65_535 * 10_000) by (nonlinear_arith)
                    requires
                        0 <= i + 1 <= 65_535,
                        SCALE == 10_000,
                ;
            }
            acc = acc + best;
            i += 1;
        }
        acc
    }

    /// The descendant-based functional similarity of two proteins: zero
    /// when either is unannotated or the term sets share no term, the
    /// averaged best-match sum otherwise.
    pub fn get_function_sim_child(&mut self, p1: &String, p2: &String) -> (r: u64)
        requires
            old(self).wf(),
        ensures
            final(self).wf(),
            same_structure(*old(self), *final(self)),
            !(pgo_has(old(self).protein_go@, p1@) && pgo_has(old(self).protein_go@, p2@)) ==> r
                == 0,
            pgo_has(old(self).protein_go@, p1@) && pgo_has(old(self).protein_go@, p2@) ==> r
                as int == fsim_child(
                old(self).dv(),
                pgo_terms(old(self).protein_go@, p1@),
                pgo_terms(old(self).protein_go@, p2@),
            ),
    {
        let ghost v = self.dv();
        let e1 = self.find_protein(p1);
        let e2 = self.find_protein(p2);
        match (e1, e2) {
            (Some(i1), Some(i2)) => {
                let gos1 = copy_ids(&self.protein_go[i1].1);
                let gos2 = copy_ids(&self.protein_go[i2].1);
                proof {
                    crate::graph::lemma_distinct_ids_bound(gos1@, self.term_count as int);
                    crate::graph::lemma_distinct_ids_bound(gos2@, self.term_count as int);
                }
                let inter = crate::eva::count_common_ids(&gos1, &gos2);
                if inter == 0 {
                    return 0;
                }
                let sum1 = self.sum_of_best_child(&gos1, &gos2);
                let sum2 = self.sum_of_best_child(&gos2, &gos1);
                proof {
                    assert(gos1@.len() >= 1) by {
                        if gos1@.len() == 0 {
                            assert(gos1@.to_set() =~= Set::<usize>::empty());
                            assert(gos1@.to_set().intersect(gos2@.to_set())
                                =~= Set::<usize>::empty());
                        }
                    }
                    lemma_sum_max_child_bound(v, gos1@, gos2@, gos1@.len() as int);
                    lemma_sum_max_child_bound(v, gos2@, gos1@, gos2@.len() as int);
                    crate::fixed::lemma_mul_le_bound(
                        gos1@.len() as int,
                        v.n * (SCALE as int),
                        65_535,
                        655_350_000int,
                    );
                    crate::fixed::lemma_mul_le_bound(
                        gos2@.len() as int,
                        v.n * (SCALE as int),
                        65_535,
                        655_350_000int,
                    );
                }
                (sum1 + sum2) / ((gos1.len() + gos2.len()) as u64)
            },
            _ => 0,
        }
    }

    /// The sum over `gos1` of each term's best descendant-based similarity
    /// against `gos2`.
    fn sum_of_best_child(&mut self, gos1: &Vec<usize>, gos2: &Vec<usize>) -> (r: u64)
        requires
            old(self).wf(),
            forall|k: int|
                0 <= k < gos1@.len() ==> (#[trigger] gos1@[k]) < old(self).term_count,
            forall|k: int|
                0 <= k < gos2@.len() ==> (#[trigger] gos2@[k]) < old(self).term_count,
            gos1@.len() <= MAX_TERM_COUNT,
        ensures
            final(self).wf(),
            same_structure(*old(self), *final(self)),
            r as int == sum_max_child(old(self).dv(), gos1@, gos2@, gos1@.len() as int),
    {
        let ghost v = self.dv();
        let mut acc: u64 = 0;
        let mut i: usize = 0;
        while i < gos1.len()
            invariant
                i <= gos1@.len(),
                gos1@.len() <= MAX_TERM_COUNT,
                self.wf(),
                v == self.dv(),
                same_structure(*old(self), *self),
                forall|k: int|
                    0 <= k < gos1@.len() ==> (#[trigger] gos1@[k]) < self.term_count,
                forall|k: int|
                    0 <= k < gos2@.len() ==> (#[trigger] gos2@[k]) < self.term_count,
                acc as int == sum_max_child(v, gos1@, gos2@, i as int),
                acc as int <= (i as int) * (v.n * (SCALE as int)),
            decreases gos1@.len() - i,
        {
            let g1 = gos1[i];
            let mut best: u64 = 0;
            let mut j: usize = 0;
            while j < gos2.len()
                invariant
                    j <= gos2@.len(),
                    self.wf(),
                    v == self.dv(),
                    same_structure(*old(self), *self),
                    g1 < self.term_count,
                    forall|k: int|
                        0 <= k < gos2@.len() ==> (#[trigger] gos2@[k]) < self.term_count,
                    best as int == max_sim_child(v, g1, gos2@, j as int),
                    best as int <= v.n * (SCALE as int),
                decreases gos2@.len() - j,
            {
                proof {
                    lemma_term_sim_child_bound(v, g1, gos2@[j as int]);
                }
                let s = self.get_sim_child(g1, gos2[j]);
                if s > best {
                    best = s;
                }
                j += 1;
            }
            proof {
                assert((i as int) * (v.n * (SCALE as int)) + v.n * (SCALE as int) == (i + 1) * (
                v.n * (SCALE as int))) by (nonlinear_arith);
                assert((i + 1) * (v.n * (SCALE as int)) <= 65_536 * (65_535 * 10_000))
                    by (nonlinear_arith)
                    requires
                        0 <= i + 1 <= 65_536,
                        0 <= v.n <= 65_535,
                        SCALE == 10_000,
                ;
            }
            acc = acc + best;
            i += 1;
        }
        acc
    }

    /// The combined functional similarity: the mean of the ancestor-based
    /// and the descendant-based scores.
    pub fn get_sim_ancestor_child(&mut self, p1: &String, p2: &String) -> (r: u64)
        requires
            old(self).wf(),
        ensures
            final(self).wf(),
            same_structure(*old(self), *final(self)),
            r as int == (fsim_of(*old(self), p1@, p2@) + fsim_child_of(*old(self), p1@, p2@))
                / 2,
    {
        let a = self.get_function_sim(p1, p2);
        let b = self.get_function_sim_child(p1, p2);
        proof {
            lemma_fsim_child_of_bound(*old(self), p1@, p2@);
        }
        (a + b) / 2
    }
}

/// The ancestor-based functional similarity of two named proteins, zero
/// for an unannotated one.
pub open spec fn fsim_of(d: Dag, l1: Seq<char>, l2: Seq<char>) -> int {
    if pgo_has(d.protein_go@, l1) && pgo_has(d.protein_go@, l2) {
        fsim(d.dv(), pgo_terms(d.protein_go@, l1), pgo_terms(d.protein_go@, l2))
    } else {
        0
    }
}

/// The descendant-based functional similarity of two named proteins.
pub open spec fn fsim_child_of(d: Dag, l1: Seq<char>, l2: Seq<char>) -> int {
    if pgo_has(d.protein_go@, l1) && pgo_has(d.protein_go@, l2) {
        fsim_child(d.dv(), pgo_terms(d.protein_go@, l1), pgo_terms(d.protein_go@, l2))
    } else {
        0
    }
}

/// The descendant-based functional similarity is bounded, so the combined
/// mean fits comfortably.
pub proof fn lemma_fsim_child_of_bound(d: Dag, l1: Seq<char>, l2: Seq<char>)
    requires
        d.wf(),
    ensures
        0 <= fsim_child_of(d, l1, l2) <= 131_072 * (65_535 * 10_000),
{
    if pgo_has(d.protein_go@, l1) && pgo_has(d.protein_go@, l2) {
        let v = d.dv();
        let gos1 = pgo_terms(d.protein_go@, l1);
        let gos2 = pgo_terms(d.protein_go@, l2);
        let i1 = choose|t: int| 0 <= t < d.protein_go@.len() && (#[trigger] d.protein_go@[t]).0@ == l1;
        let i2 = choose|t: int| 0 <= t < d.protein_go@.len() && (#[trigger] d.protein_go@[t]).0@ == l2;
        assert(gos1 == d.protein_go@[i1].1@);
        assert(gos2 == d.protein_go@[i2].1@);
        crate::graph::lemma_distinct_ids_bound(gos1, v.n);
        crate::graph::lemma_distinct_ids_bound(gos2, v.n);
        if gos1.to_set().intersect(gos2.to_set()).len() != 0 {
            lemma_sum_max_child_bound(v, gos1, gos2, gos1.len() as int);
            lemma_sum_max_child_bound(v, gos2, gos1, gos2.len() as int);
            assert(gos1.len() >= 1) by {
                if gos1.len() == 0 {
                    assert(gos1.to_set() =~= Set::<usize>::empty());
                    assert(gos1.to_set().intersect(gos2.to_set()) =~= Set::<usize>::empty());
                }
            }
            crate::fixed::lemma_mul_le_bound(
                gos1.len() as int,
                v.n * (SCALE as int),
                65_535,
                655_350_000int,
            );
            crate::fixed::lemma_mul_le_bound(
                gos2.len() as int,
                v.n * (SCALE as int),
                65_535,
                655_350_000int,
            );
            crate::fixed::lemma_div_le_dividend(
                sum_max_child(v, gos1, gos2, gos1.len() as int) + sum_max_child(
                    v,
                    gos2,
                    gos1,
                    gos2.len() as int,
                ),
                (gos1.len() + gos2.len()) as int,
            );
        }
    }
}

/// Dividing a smaller non-negative value keeps the quotient order.
pub proof fn lemma_div_mono(a: int, b: int, d: int)
    requires
        0 <= a <= b,
        1 <= d,
    ensures
        a / d <= b / d,
{
    assert(a / d <= b / d) by (nonlinear_arith)
        requires
            0 <= a <= b,
            1 <= d,
    ;
}

/// A row update in the parent table touches one directed pair only.

impl Dag {
    /// Insert or overwrite the relation edge from `a` to parent `b` with
    /// weight `r`.  The edge is accepted exactly when it respects the level
    /// witness, which keeps the hierarchy acyclic; the similarity caches are
    /// cleared, since the structure they described has changed.
    pub fn add_edge(&mut self, a: usize, b: usize, r: u64) -> (ok: bool)
        requires
            old(self).wf(),
            a < old(self).term_count,
            b < old(self).term_count,
            a != b,
            r <= SCALE,
        ensures
            final(self).wf(),
            final(self).term_count == old(self).term_count,
            final(self).protein_go == old(self).protein_go,
            final(self).topo_pos == old(self).topo_pos,
            ok == ((old(self).topo_pos@[a as int] as int) < old(self).topo_pos@[b as int] as int),
            !ok ==> *final(self) == *old(self),
            ok ==> (forall|x: usize, p: usize|
                x < old(self).term_count && p < old(self).term_count ==> (#[trigger] has_key(
                    final(self).dv().ps[x as int],
                    p,
                )) == (has_key(old(self).dv().ps[x as int], p) || (x == a && p == b))),
            ok ==> has_key(final(self).dv().ps[a as int], b) && weight_of(
                final(self).dv().ps[a as int],
                b,
            ) == r,
            ok ==> (forall|x: usize, p: usize|
                x < old(self).term_count && p < old(self).term_count && has_key(
                    final(self).dv().ps[x as int],
                    p,
                ) && !(x == a && p == b) ==> weight_of(final(self).dv().ps[x as int], p)
                    == weight_of(old(self).dv().ps[x as int], p)),
    {
        if !(self.topo_pos[a] < self.topo_pos[b]) {
            return false;
        }
        let ghost v0 = self.dv();
        let n = self.term_count;
        // the caches describe the old structure: start them afresh
        self.sim_cache = Vec::new();
        self.sim_child_cache = Vec::new();
        let ghost pre_ps = self.parents@;
        proof {
            assert forall|t2: int| 0 <= t2 < n implies #[trigger] pre_ps[t2]@ == v0.ps[t2] by {}
            assert(nodup_keys(pre_ps[a as int]@));
        }
        let found = crate::graph::find_key(&self.parents[a], b);
        match found {
            Some(e) => {
                crate::graph::set_entry(&mut self.parents, a, e, (b, r));
                proof {
                    crate::graph::lemma_key_at(pre_ps[a as int]@, b, e as int);
                }
            },
            None => {
                crate::graph::push_entry(&mut self.parents, a, (b, r));
                proof {
                    crate::graph::lemma_nodup_push(pre_ps[a as int]@, b, r);
                }
            },
        }
        proof {
            lemma_row_upsert(pre_ps, self.parents@, a, b, r, n as int);
        }
        // keep the inverse lists exact
        let mut in_children = false;
        let mut t: usize = 0;
        while t < self.children[b].len()
            invariant
                t <= self.children@[b as int]@.len(),
                b < self.children@.len(),
                in_children <==> (exists|u: int|
                    0 <= u < t && self.children@[b as int]@[u] == a),
            decreases self.children@[b as int]@.len() - t,
        {
            if self.children[b][t] == a {
                in_children = true;
            }
            t += 1;
        }
        let ghost pre_cs = self.children@;
        if !in_children {
            push_child(&mut self.children, b, a);
        }
        proof {
            let v1 = self.dv();
            assert(v1.ps[a as int] == self.parents@[a as int]@);
            // parent entries stay in range with valid levels
            assert forall|t2: int, k2: int|
                0 <= t2 < n && 0 <= k2 < v1.ps[t2].len() implies ((#[trigger] v1.ps[t2][k2]).0
                < n && v1.ps[t2][k2].1 <= SCALE && (v1.pos[t2] as int) < v1.pos[v1.ps[t2][k2].0
                as int] as int) by {
                if t2 == a {
                    if has_key(pre_ps[a as int]@, b) {
                        let e = key_at(pre_ps[a as int]@, b);
                        if k2 == e {
                            assert(v1.ps[t2][k2] == (b, r));
                        } else {
                            assert(v1.ps[t2][k2] == v0.ps[t2][k2]);
                        }
                    } else {
                        if k2 == pre_ps[a as int]@.len() {
                            assert(v1.ps[t2][k2] == (b, r));
                        } else {
                            assert(v1.ps[t2][k2] == v0.ps[t2][k2]);
                        }
                    }
                } else {
                    assert(v1.ps[t2][k2] == v0.ps[t2][k2]);
                }
            }
            // the child lists stay duplicate-free, in range, level-valid
            assert forall|t2: int|
                0 <= t2 < n implies (#[trigger] v1.cs[t2]).no_duplicates() by {
                if t2 == b && !in_children {
                    assert(!pre_cs[b as int]@.contains(a)) by {
                        if pre_cs[b as int]@.contains(a) {
                            let u = choose|u: int|
                                0 <= u < pre_cs[b as int]@.len() && pre_cs[b as int]@[u] == a;
                        }
                    }
                    assert(v0.cs[t2] == pre_cs[b as int]@);
                    assert forall|c1: int, c2: int|
                        0 <= c1 < c2 < v1.cs[t2].len() implies (#[trigger] v1.cs[t2][c1]) != (
                    #[trigger] v1.cs[t2][c2]) by {
                        if c2 == pre_cs[b as int]@.len() {
                            if v1.cs[t2][c1] == a {
                                assert(pre_cs[b as int]@.contains(a)) by {
                                    assert(v1.cs[t2][c1] == pre_cs[b as int]@[c1]);
                                    assert(pre_cs[b as int]@[c1] == a);
                                }
                            }
                        } else {
                            assert(v1.cs[t2][c1] == v0.cs[t2][c1]);
                            assert(v1.cs[t2][c2] == v0.cs[t2][c2]);
                        }
                    }
                } else {
                    assert(v1.cs[t2] == v0.cs[t2]);
                }
            }
            // the inverse relation still holds pointwise
            assert forall|u: int, x: usize|
                0 <= u < n && x < n implies ((#[trigger] v1.cs[u].contains(x)) <==> has_key(
                v1.ps[x as int],
                u as usize,
            )) by {
                if u == b && x == a {
                    if in_children {
                        let w = choose|w: int|
                            0 <= w < pre_cs[b as int]@.len() && pre_cs[b as int]@[w] == a;
                        assert(v1.cs[u][w] == a);
                    } else {
                        assert(v1.cs[u][v1.cs[u].len() - 1] == a);
                    }
                } else {
                    if u == b {
                        if v0.cs[u].contains(x) {
                            let w = choose|w: int|
                                0 <= w < v0.cs[u].len() && v0.cs[u][w] == x;
                            assert(v1.cs[u][w] == x);
                        }
                        if v1.cs[u].contains(x) {
                            let w = choose|w: int|
                                0 <= w < v1.cs[u].len() && v1.cs[u][w] == x;
                            if w < pre_cs[b as int]@.len() {
                                assert(v0.cs[u][w] == x);
                            } else {
                                assert(x == a);
                            }
                        }
                    } else {
                        assert(v1.cs[u] == v0.cs[u]);
                    }
                    assert(v0.cs[u].contains(x) <==> has_key(v0.ps[x as int], u as usize));
                }
            }
            assert forall|t2: int, k2: int|
                0 <= t2 < n && 0 <= k2 < v1.cs[t2].len() implies ((#[trigger] v1.cs[t2][k2]) < n
                && (v1.pos[(v1.cs[t2][k2]) as int] as int) < v1.pos[t2] as int) by {
                if t2 == b && !in_children && k2 == pre_cs[b as int]@.len() {
                    assert(v1.cs[t2][k2] == a);
                } else {
                    assert(v1.cs[t2][k2] == v0.cs[t2][k2]);
                }
            }
        }
        true
    }
}

/// The topological similarity of an edge, in fixed point: the Jaccard
/// index of the two neighbourhoods, truncated.
pub open spec fn topo_fp(g: Graph, x: usize, y: usize) -> int {
    let inter = crate::graph::key_set(g.adj(x as int)).intersect(
        crate::graph::key_set(g.adj(y as int)),
    ).len();
    let uni = crate::graph::key_set(g.adj(x as int)).union(
        crate::graph::key_set(g.adj(y as int)),
    ).len();
    if uni == 0 {
        0
    } else {
        inter * (SCALE as int) / uni as int
    }
}

/// The reweighted edge weight: functional similarity blended with
/// topological similarity at ratio `alpha`, in fixed point.
pub open spec fn combined_weight(d: Dag, g: Graph, x: usize, y: usize, alpha: u64) -> int {
    (alpha * fsim_of(d, g.id_protein@[x as int]@, g.id_protein@[y as int]@) + (SCALE - alpha)
        * topo_fp(g, x, y)) / (SCALE as int)
}

/// Every undirected edge of the graph, each once, as a pair with the lower
/// endpoint first.
fn collect_edge_pairs(g: &Graph) -> (r: Vec<(usize, usize)>)
    requires
        g.wf(),
    ensures
        forall|k: int|
            0 <= k < r@.len() ==> ((#[trigger] r@[k]).0 < r@[k].1 && r@[k].1 < g.node_count
                && g.spec_has_edge(r@[k].0, r@[k].1)),
        forall|x: usize, y: usize|
            x < y && y < g.node_count && g.spec_has_edge(x, y) ==> r@.contains((x, y)),
        r@.no_duplicates(),
{
    let n = g.node_count;
    let mut r: Vec<(usize, usize)> = Vec::new();
    let mut x: usize = 0;
    while x < n
        invariant
            x <= n,
            n == g.node_count,
            g.wf(),
            forall|k: int|
                0 <= k < r@.len() ==> ((#[trigger] r@[k]).0 < r@[k].1 && r@[k].1 < n
                    && g.spec_has_edge(r@[k].0, r@[k].1)),
            forall|x2: usize, y2: usize|
                x2 < y2 && y2 < n && x2 < x && g.spec_has_edge(x2, y2) ==> r@.contains((x2, y2)),
            forall|k: int| 0 <= k < r@.len() ==> ((#[trigger] r@[k]).0 as int) < x,
            r@.no_duplicates(),
        decreases n - x,
    {
        let deg = g.nei_list[x].len();
        let mut j: usize = 0;
        while j < deg
            invariant
                j <= deg,
                x < n,
                n == g.node_count,
                g.wf(),
                deg == g.adj(x as int).len(),
                forall|k: int|
                    0 <= k < r@.len() ==> ((#[trigger] r@[k]).0 < r@[k].1 && r@[k].1 < n
                        && g.spec_has_edge(r@[k].0, r@[k].1)),
                forall|x2: usize, y2: usize|
                    x2 < y2 && y2 < n && x2 < x && g.spec_has_edge(x2, y2) ==> r@.contains(
                        (x2, y2),
                    ),
                forall|y2: usize|
                    x < y2 && y2 < n && (exists|t: int|
                        0 <= t < j && (#[trigger] g.adj(x as int)[t]).0 == y2) ==> r@.contains(
                        (x, y2),
                    ),
                forall|k: int|
                    0 <= k < r@.len() ==> ((#[trigger] r@[k]).0 as int) < x || (((
                    #[trigger] r@[k]).0 as int) == x && exists|t: int|
                        0 <= t < j && (#[trigger] g.adj(x as int)[t]).0 == r@[k].1),
                r@.no_duplicates(),
            decreases deg - j,
        {
            let y = g.nei_list[x][j].0;
            let ghost pre = r@;
            if y > x {
                proof {
                    assert(g.spec_has_edge(x, y)) by {
                        assert(g.adj(x as int)[j as int].0 == y);
                    }
                    assert(!pre.contains((x, y))) by {
                        if pre.contains((x, y)) {
                            let k = choose|k: int| 0 <= k < pre.len() && pre[k] == (x, y);
                            let t = choose|t: int|
                                0 <= t < j && (#[trigger] g.adj(x as int)[t]).0 == y;
                            assert(g.adj(x as int)[t].0 == g.adj(x as int)[j as int].0);
                        }
                    }
                }
                r.push((x, y));
                proof {
                    assert forall|a: int, b: int| 0 <= a < b < r@.len() implies r@[a] != r@[b] by {
                        if b == pre.len() {
                            if r@[a] == r@[b] {
                                assert(pre.contains((x, y))) by {
                                    assert(pre[a] == (x, y));
                                }
                            }
                        }
                    }
                    assert forall|x2: usize, y2: usize|
                        x2 < y2 && y2 < n && x2 < x && g.spec_has_edge(x2, y2) implies
                        r@.contains((x2, y2)) by {
                        assert(pre.contains((x2, y2)));
                        let k2 = choose|k2: int| 0 <= k2 < pre.len() && pre[k2] == (x2, y2);
                        assert(r@[k2] == (x2, y2));
                    }
                }
            }
            proof {
                assert forall|y2: usize|
                    x < y2 && y2 < n && (exists|t: int|
                        0 <= t < j + 1 && (#[trigger] g.adj(x as int)[t]).0 == y2) implies
                    r@.contains((x, y2)) by {
                    let t = choose|t: int|
                        0 <= t < j + 1 && (#[trigger] g.adj(x as int)[t]).0 == y2;
                    if t < j {
                        assert(pre.contains((x, y2)));
                        let k = choose|k: int| 0 <= k < pre.len() && pre[k] == (x, y2);
                        assert(r@[k] == (x, y2));
                    } else {
                        assert(y2 == y);
                        assert(r@[r@.len() - 1] == (x, y2));
                    }
                }
            }
            j += 1;
        }
        proof {
            assert forall|x2: usize, y2: usize|
                x2 < y2 && y2 < n && x2 < x + 1 && g.spec_has_edge(x2, y2) implies r@.contains(
                (x2, y2),
            ) by {
                if x2 == x {
                    let t = choose|t: int|
                        0 <= t < g.adj(x as int).len() && (#[trigger] g.adj(x as int)[t]).0 == y2;
                }
            }
        }
        x += 1;
    }
    r
}

/// Whether the pair `x – y` stands among the first `k` collected pairs.
pub open spec fn pair_before(pairs: Seq<(usize, usize)>, k: int, x: usize, y: usize) -> bool {
    exists|t: int| 0 <= t < k && pairs[t] == (x, y)
}

/// Reweight every edge to the functional similarity of its endpoint
/// proteins.
pub fn weight_by_dag(g: &mut Graph, d: &mut Dag)
    requires
        old(g).wf(),
        old(g).labeled(),
        old(d).wf(),
    ensures
        final(g).wf(),
        final(g).labeled(),
        final(g).node_count == old(g).node_count,
        final(g).id_protein == old(g).id_protein,
        final(d).wf(),
        same_structure(*old(d), *final(d)),
        forall|x: usize, y: usize|
            (#[trigger] final(g).spec_has_edge(x, y)) == old(g).spec_has_edge(x, y),
        forall|x: usize, y: usize|
            x < y && final(g).spec_has_edge(x, y) ==> final(g).spec_weight(x, y) as int
                == fsim_of(*old(d), old(g).id_protein@[x as int]@, old(g).id_protein@[y as int]@),
{
    let ghost g0 = *g;
    let ghost d0 = *d;
    let pairs = collect_edge_pairs(g);
    // compute every new weight before touching the graph
    let mut vals: Vec<u64> = Vec::new();
    let mut k: usize = 0;
    while k < pairs.len()
        invariant
            k <= pairs@.len(),
            d.wf(),
            same_structure(d0, *d),
            *g == g0,
            g.wf(),
            g.labeled(),
            forall|t: int|
                0 <= t < pairs@.len() ==> ((#[trigger] pairs@[t]).0 < pairs@[t].1 && pairs@[t].1
                    < g.node_count && g.spec_has_edge(pairs@[t].0, pairs@[t].1)),
            vals@.len() == k,
            forall|t: int|
                0 <= t < k ==> (#[trigger] vals@[t]) as int == fsim_of(
                    d0,
                    g0.id_protein@[pairs@[t].0 as int]@,
                    g0.id_protein@[pairs@[t].1 as int]@,
                ) && vals@[t] <= SCALE,
        decreases pairs@.len() - k,
    {
        let (x, y) = pairs[k];
        let f = d.get_function_sim(&g.id_protein[x], &g.id_protein[y]);
        vals.push(f);
        k += 1;
    }
    // apply them
    let mut k: usize = 0;
    while k < pairs.len()
        invariant
            k <= pairs@.len(),
            g.wf(),
            g.labeled(),
            g.node_count == g0.node_count,
            g.id_protein == g0.id_protein,
            vals@.len() == pairs@.len(),
            pairs@.no_duplicates(),
            forall|t: int|
                0 <= t < pairs@.len() ==> ((#[trigger] pairs@[t]).0 < pairs@[t].1 && pairs@[t].1
                    < g.node_count && g0.spec_has_edge(pairs@[t].0, pairs@[t].1)),
            forall|t: int|
                0 <= t < pairs@.len() ==> (#[trigger] vals@[t]) as int == fsim_of(
                    d0,
                    g0.id_protein@[pairs@[t].0 as int]@,
                    g0.id_protein@[pairs@[t].1 as int]@,
                ) && vals@[t] <= SCALE,
            forall|x: usize, y: usize|
                (#[trigger] g.spec_has_edge(x, y)) == g0.spec_has_edge(x, y),
            forall|t: int|
                0 <= t < k ==> g.spec_weight((#[trigger] pairs@[t]).0, pairs@[t].1) == vals@[t],
        decreases pairs@.len() - k,
    {
        let (x, y) = pairs[k];
        g.add_edge(x, y, vals[k]);
        proof {
            assert forall|t: int|
                0 <= t < k + 1 implies g.spec_weight((#[trigger] pairs@[t]).0, pairs@[t].1)
                == vals@[t] by {
                if t < k {
                    assert(pairs@[t] != pairs@[k as int]);
                    assert(!((pairs@[t].0 == x && pairs@[t].1 == y) || (pairs@[t].0 == y
                        && pairs@[t].1 == x)));
                }
            }
        }
        k += 1;
    }
    proof {
        assert forall|x: usize, y: usize|
            x < y && g.spec_has_edge(x, y) implies g.spec_weight(x, y) as int == fsim_of(
            d0,
            g0.id_protein@[x as int]@,
            g0.id_protein@[y as int]@,
        ) by {
            assert(g0.spec_has_edge(x, y));
            assert(g0.spec_has_edge(y, x));
            assert(y < g0.node_count);
            assert(pairs@.contains((x, y)));
            let t = choose|t: int| 0 <= t < pairs@.len() && pairs@[t] == (x, y);
            assert(g.spec_weight(pairs@[t].0, pairs@[t].1) == vals@[t]);
        }
    }
}

/// The functional-similarity prune bound: edges at or below 0.1 leave.
pub const FUNCTION_SIM_PRUNE: u64 = 1_000;

/// Reweight every edge to the blend of functional and topological
/// similarity at ratio `alpha`, then drop the edges whose functional
/// similarity did not pass the prune bound.  Every weight and both
/// similarities are read from the graph as it stood before the pass.
pub fn weight_by_dag_topo(g: &mut Graph, d: &mut Dag, alpha: u64)
    requires
        old(g).wf(),
        old(g).labeled(),
        old(d).wf(),
        alpha <= SCALE,
    ensures
        final(g).wf(),
        final(g).labeled(),
        final(g).node_count == old(g).node_count,
        final(g).id_protein == old(g).id_protein,
        final(d).wf(),
        same_structure(*old(d), *final(d)),
        forall|x: usize, y: usize|
            x < y ==> ((#[trigger] final(g).spec_has_edge(x, y)) == (old(g).spec_has_edge(x, y)
                && fsim_of(*old(d), old(g).id_protein@[x as int]@, old(g).id_protein@[y as int]@)
                > FUNCTION_SIM_PRUNE)),
        forall|x: usize, y: usize|
            x < y && final(g).spec_has_edge(x, y) ==> final(g).spec_weight(x, y) as int
                == combined_weight(*old(d), *old(g), x, y, alpha),
{
    let ghost g0 = *g;
    let ghost d0 = *d;
    let pairs = collect_edge_pairs(g);
    // compute every new weight and prune flag before touching the graph
    let mut vals: Vec<u64> = Vec::new();
    let mut drop_edge: Vec<bool> = Vec::new();
    let mut k: usize = 0;
    while k < pairs.len()
        invariant
            k <= pairs@.len(),
            d.wf(),
            same_structure(d0, *d),
            *g == g0,
            g.wf(),
            g.labeled(),
            alpha <= SCALE,
            forall|t: int|
                0 <= t < pairs@.len() ==> ((#[trigger] pairs@[t]).0 < pairs@[t].1 && pairs@[t].1
                    < g.node_count && g.spec_has_edge(pairs@[t].0, pairs@[t].1)),
            vals@.len() == k,
            drop_edge@.len() == k,
            forall|t: int|
                0 <= t < k ==> (#[trigger] vals@[t]) as int == combined_weight(
                    d0,
                    g0,
                    pairs@[t].0,
                    pairs@[t].1,
                    alpha,
                ) && vals@[t] <= MAX_EDGE_WEIGHT,
            forall|t: int|
                0 <= t < k ==> (#[trigger] drop_edge@[t]) == (fsim_of(
                    d0,
                    g0.id_protein@[pairs@[t].0 as int]@,
                    g0.id_protein@[pairs@[t].1 as int]@,
                ) <= FUNCTION_SIM_PRUNE),
        decreases pairs@.len() - k,
    {
        let (x, y) = pairs[k];
        let f = d.get_function_sim(&g.id_protein[x], &g.id_protein[y]);
        let jr = g.jaccard(x, y);
        proof {
            let inter = crate::graph::key_set(g0.adj(x as int)).intersect(
                crate::graph::key_set(g0.adj(y as int)),
            ).len();
            let uni = crate::graph::key_set(g0.adj(x as int)).union(
                crate::graph::key_set(g0.adj(y as int)),
            ).len();
            if uni > 0 {
                assert(jr == Ratio { num: inter as u128, den: uni as u128 });
            } else {
                assert(jr == Ratio::spec_zero());
            }
        }
        let tj = jr.to_fixed();
        proof {
            crate::fixed::lemma_mul_le_bound(alpha as int, f as int, 10_000, 10_000);
            crate::fixed::lemma_mul_le_bound(
                (SCALE - alpha) as int,
                tj as int,
                10_000,
                10_000,
            );
            crate::fixed::lemma_div_le_dividend(
                alpha * f + (SCALE - alpha) * tj,
                SCALE as int,
            );
            lemma_div_mono(alpha * f + (SCALE - alpha) * tj, 200_000_000, SCALE as int);
        }
        let w = (alpha * f + (SCALE - alpha) * tj) / SCALE;
        proof {
            assert(tj as int == topo_fp(g0, x, y)) by {
                let inter = crate::graph::key_set(g0.adj(x as int)).intersect(
                    crate::graph::key_set(g0.adj(y as int)),
                ).len();
                let uni = crate::graph::key_set(g0.adj(x as int)).union(
                    crate::graph::key_set(g0.adj(y as int)),
                ).len();
                crate::graph::lemma_keys_prefix_card(g0.adj(x as int), g0.adj(x as int).len() as int);
                crate::graph::lemma_keys_prefix_card(g0.adj(y as int), g0.adj(y as int).len() as int);
                crate::graph::lemma_nodup_bounded_len(g0.adj(x as int), g0.node_count as int);
                crate::graph::lemma_nodup_bounded_len(g0.adj(y as int), g0.node_count as int);
                vstd::set_lib::lemma_len_union(
                    crate::graph::key_set(g0.adj(x as int)),
                    crate::graph::key_set(g0.adj(y as int)),
                );
                vstd::set_lib::lemma_len_intersect(
                    crate::graph::key_set(g0.adj(x as int)),
                    crate::graph::key_set(g0.adj(y as int)),
                );
                if uni == 0 {
                    assert(tj as int == 0);
                    assert(topo_fp(g0, x, y) == 0);
                } else {
                    assert(tj as int == (inter as u128) * SCALE / (uni as u128 as int));
                    assert(inter as u128 == inter);
                    assert(uni as u128 == uni);
                    assert(topo_fp(g0, x, y) == inter * (SCALE as int) / (uni as int));
                }
            }
            assert(w as int == combined_weight(d0, g0, x, y, alpha));
        }
        vals.push(w);
        drop_edge.push(f <= FUNCTION_SIM_PRUNE);
        k += 1;
    }
    // apply the new weights
    let mut k: usize = 0;
    while k < pairs.len()
        invariant
            k <= pairs@.len(),
            g.wf(),
            g.labeled(),
            g.node_count == g0.node_count,
            g.id_protein == g0.id_protein,
            vals@.len() == pairs@.len(),
            pairs@.no_duplicates(),
            forall|t: int|
                0 <= t < pairs@.len() ==> ((#[trigger] pairs@[t]).0 < pairs@[t].1 && pairs@[t].1
                    < g.node_count && g0.spec_has_edge(pairs@[t].0, pairs@[t].1)),
            forall|t: int|
                0 <= t < pairs@.len() ==> (#[trigger] vals@[t]) <= MAX_EDGE_WEIGHT,
            forall|x: usize, y: usize|
                (#[trigger] g.spec_has_edge(x, y)) == g0.spec_has_edge(x, y),
            forall|t: int|
                0 <= t < k ==> g.spec_weight((#[trigger] pairs@[t]).0, pairs@[t].1) == vals@[t],
        decreases pairs@.len() - k,
    {
        let (x, y) = pairs[k];
        g.add_edge(x, y, vals[k]);
        proof {
            assert forall|t: int|
                0 <= t < k + 1 implies g.spec_weight((#[trigger] pairs@[t]).0, pairs@[t].1)
                == vals@[t] by {
                if t < k {
                    assert(pairs@[t] != pairs@[k as int]);
                    assert(!((pairs@[t].0 == x && pairs@[t].1 == y) || (pairs@[t].0 == y
                        && pairs@[t].1 == x)));
                }
            }
        }
        k += 1;
    }
    // drop the pruned edges
    let mut k: usize = 0;
    while k < pairs.len()
        invariant
            k <= pairs@.len(),
            g.wf(),
            g.labeled(),
            g.node_count == g0.node_count,
            g.id_protein == g0.id_protein,
            vals@.len() == pairs@.len(),
            drop_edge@.len() == pairs@.len(),
            pairs@.no_duplicates(),
            forall|t: int|
                0 <= t < pairs@.len() ==> ((#[trigger] pairs@[t]).0 < pairs@[t].1 && pairs@[t].1
                    < g.node_count && g0.spec_has_edge(pairs@[t].0, pairs@[t].1)),
            forall|t: int|
                0 <= t < k ==> (#[trigger] g.spec_has_edge(pairs@[t].0, pairs@[t].1))
                    == !drop_edge@[t],
            forall|t: int|
                k <= t < pairs@.len() ==> #[trigger] g.spec_has_edge(pairs@[t].0, pairs@[t].1),
            forall|t: int|
                0 <= t < pairs@.len() && g.spec_has_edge((#[trigger] pairs@[t]).0, pairs@[t].1)
                    ==> g.spec_weight(pairs@[t].0, pairs@[t].1) == vals@[t],
            forall|x: usize, y: usize|
                x < y && !pair_before(pairs@, pairs@.len() as int, x, y) ==> (
                #[trigger] g.spec_has_edge(x, y)) == g0.spec_has_edge(x, y),
        decreases pairs@.len() - k,
    {
        let (x, y) = pairs[k];
        if drop_edge[k] {
            g.remove_edge(x, y);
        }
        proof {
            assert forall|t: int|
                0 <= t < k + 1 implies (#[trigger] g.spec_has_edge(pairs@[t].0, pairs@[t].1))
                == !drop_edge@[t] by {
                if t < k {
                    assert(pairs@[t] != pairs@[k as int]);
                    assert(!((pairs@[t].0 == x && pairs@[t].1 == y) || (pairs@[t].0 == y
                        && pairs@[t].1 == x)));
                }
            }
            assert forall|t: int|
                k + 1 <= t < pairs@.len() implies #[trigger] g.spec_has_edge(
                pairs@[t].0,
                pairs@[t].1,
            ) by {
                assert(pairs@[t] != pairs@[k as int]);
            }
            assert forall|x2: usize, y2: usize|
                x2 < y2 && !pair_before(pairs@, pairs@.len() as int, x2, y2) implies (
            #[trigger] g.spec_has_edge(x2, y2)) == g0.spec_has_edge(x2, y2) by {
                assert(!(x2 == x && y2 == y)) by {
                    if x2 == x && y2 == y {
                        assert(pairs@[k as int] == (x2, y2));
                    }
                }
            }
        }
        k += 1;
    }
    proof {
        assert forall|x: usize, y: usize| x < y implies ((#[trigger] g.spec_has_edge(x, y)) == (
        g0.spec_has_edge(x, y) && fsim_of(
            d0,
            g0.id_protein@[x as int]@,
            g0.id_protein@[y as int]@,
        ) > FUNCTION_SIM_PRUNE)) by {
            if g0.spec_has_edge(x, y) {
                assert(g0.spec_has_edge(y, x));
                assert(y < g0.node_count);
                assert(pairs@.contains((x, y)));
                let t = choose|t: int| 0 <= t < pairs@.len() && pairs@[t] == (x, y);
                assert(g.spec_has_edge(pairs@[t].0, pairs@[t].1) == !drop_edge@[t]);
            } else {
                assert(!pair_before(pairs@, pairs@.len() as int, x, y)) by {
                    if pair_before(pairs@, pairs@.len() as int, x, y) {
                        let t = choose|t: int| 0 <= t < pairs@.len() && pairs@[t] == (x, y);
                        assert(g0.spec_has_edge(pairs@[t].0, pairs@[t].1));
                    }
                }
            }
        }
        assert forall|x: usize, y: usize|
            x < y && g.spec_has_edge(x, y) implies g.spec_weight(x, y) as int == combined_weight(
            d0,
            g0,
            x,
            y,
            alpha,
        ) by {
            assert(g0.spec_has_edge(x, y));
            assert(g0.spec_has_edge(y, x));
            assert(y < g0.node_count);
            assert(pairs@.contains((x, y)));
            let t = choose|t: int| 0 <= t < pairs@.len() && pairs@[t] == (x, y);
            assert(g.spec_weight(pairs@[t].0, pairs@[t].1) == vals@[t]);
        }
    }
}

/// A row update in the parent table touches one directed pair only.
proof fn lemma_row_upsert(
    pre: Seq<Vec<(usize, u64)>>,
    post: Seq<Vec<(usize, u64)>>,
    a: usize,
    b: usize,
    w: u64,
    n: int,
)
    requires
        pre.len() == n,
        post.len() == n,
        (a as int) < n,
        (b as int) < n,
        b != a,
        w <= SCALE,
        forall|t: int, e: int|
            0 <= t < n && 0 <= e < pre[t]@.len() ==> ((#[trigger] pre[t]@[e]).0 < n
                && pre[t]@[e].1 <= SCALE && (pre[t]@[e].0 as int) != t),
        forall|t: int| 0 <= t < n ==> nodup_keys(#[trigger] pre[t]@),
        forall|t: int| 0 <= t < n && t != a ==> post[t] == pre[t],
        has_key(pre[a as int]@, b) ==> post[a as int]@ == pre[a as int]@.update(
            key_at(pre[a as int]@, b),
            (b, w),
        ),
        !has_key(pre[a as int]@, b) ==> post[a as int]@ == pre[a as int]@.push((b, w)),
    ensures
        forall|x: usize, p: usize|
            (x as int) < n ==> ((#[trigger] has_key(post[x as int]@, p)) == (has_key(
                pre[x as int]@,
                p,
            ) || (x == a && p == b))),
        forall|x: usize, p: usize|
            (x as int) < n && has_key(post[x as int]@, p) && !(x == a && p == b)
                ==> weight_of(post[x as int]@, p) == weight_of(pre[x as int]@, p),
        has_key(post[a as int]@, b) && weight_of(post[a as int]@, b) == w,
        forall|t: int| 0 <= t < n ==> nodup_keys(#[trigger] post[t]@),
        forall|t: int, e: int|
            0 <= t < n && 0 <= e < post[t]@.len() ==> ((#[trigger] post[t]@[e]).0 < n
                && post[t]@[e].1 <= SCALE && (post[t]@[e].0 as int) != t),
{
    let rowp = pre[a as int]@;
    let rown = post[a as int]@;
    if has_key(rowp, b) {
        let kb = key_at(rowp, b);
        crate::graph::lemma_key_at(rowp, b, kb);
        assert(nodup_keys(rown));
        crate::graph::lemma_key_at(rown, b, kb);
        assert forall|x: usize, p: usize| (x as int) < n implies ((#[trigger] has_key(
            post[x as int]@,
            p,
        )) == (has_key(pre[x as int]@, p) || (x == a && p == b))) by {
            if x == a {
                crate::graph::lemma_same_keys_has(rowp, rown, p);
            }
        }
        assert forall|x: usize, p: usize|
            (x as int) < n && has_key(post[x as int]@, p) && !(x == a && p == b) implies
            weight_of(post[x as int]@, p) == weight_of(pre[x as int]@, p) by {
            if x == a {
                crate::graph::lemma_same_keys_has(rowp, rown, p);
                let t = key_at(rowp, p);
                crate::graph::lemma_key_at(rowp, p, t);
                assert(t != kb);
                assert(rown[t] == rowp[t]);
                crate::graph::lemma_key_at(rown, p, t);
            }
        }
        assert forall|t: int, e: int|
            0 <= t < n && 0 <= e < post[t]@.len() implies ((#[trigger] post[t]@[e]).0 < n
            && post[t]@[e].1 <= SCALE && (post[t]@[e].0 as int) != t) by {
            if t == a && e == kb {
                assert(post[t]@[e] == (b, w));
            } else if t == a {
                assert(pre[t]@[e] == post[t]@[e]);
            } else {
                assert(pre[t]@[e] == post[t]@[e]);
            }
        }
    } else {
        let le = rowp.len() as int;
        crate::graph::lemma_nodup_push(rowp, b, w);
        crate::graph::lemma_key_at(rown, b, le);
        assert forall|x: usize, p: usize| (x as int) < n implies ((#[trigger] has_key(
            post[x as int]@,
            p,
        )) == (has_key(pre[x as int]@, p) || (x == a && p == b))) by {
            if x == a {
                if has_key(rown, p) && p != b {
                    let t = choose|t: int| 0 <= t < rown.len() && rown[t].0 == p;
                    assert(t != le);
                    assert(rowp[t].0 == p);
                }
                if has_key(rowp, p) {
                    let t = choose|t: int| 0 <= t < rowp.len() && rowp[t].0 == p;
                    assert(rown[t].0 == p);
                }
            }
        }
        assert forall|x: usize, p: usize|
            (x as int) < n && has_key(post[x as int]@, p) && !(x == a && p == b) implies
            weight_of(post[x as int]@, p) == weight_of(pre[x as int]@, p) by {
            if x == a {
                let t = key_at(rowp, p);
                crate::graph::lemma_key_at(rowp, p, t);
                assert(rown[t] == rowp[t]);
                crate::graph::lemma_key_at(rown, p, t);
            }
        }
        assert forall|t: int, e: int|
            0 <= t < n && 0 <= e < post[t]@.len() implies ((#[trigger] post[t]@[e]).0 < n
            && post[t]@[e].1 <= SCALE && (post[t]@[e].0 as int) != t) by {
            if t == a && e == le {
                assert(post[t]@[e] == (b, w));
            } else if t == a {
                assert(pre[t]@[e] == post[t]@[e]);
            } else {
                assert(pre[t]@[e] == post[t]@[e]);
            }
        }
    }
}

/// An injective map from `n` values into positions of a sequence forces the
/// sequence to hold at least `n` entries.
proof fn lemma_inv_injective_count(inv: Seq<usize>, order: Seq<usize>, n: int)
    requires
        inv.len() == n,
        0 <= n <= 0xFFFF_FFFF,
        forall|w: int| 0 <= w < n ==> ((#[trigger] inv[w]) as int) < order.len(),
        forall|w: int| 0 <= w < n ==> order[(#[trigger] inv[w]) as int] == w as usize,
    ensures
        order.len() >= n,
{
    if n > 0 {
        // the positions of 0 .. n are n distinct indices below the length
        let m = Seq::new(n as nat, |w: int| inv[w]);
        assert(m.no_duplicates()) by {
            assert forall|w1: int, w2: int| 0 <= w1 < w2 < n implies m[w1] != m[w2] by {
                assert(order[(inv[w1]) as int] == w1 as usize);
                assert(order[(inv[w2]) as int] == w2 as usize);
                if inv[w1] == inv[w2] {
                    assert(w1 as usize == w2 as usize);
                    assert(w1 == w2);
                }
            }
        }
        crate::graph::lemma_distinct_ids_bound(m, order.len() as int);
    }
}

} // verus!

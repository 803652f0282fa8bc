//! Core-attachment clustering: seeds ordered by clustering coefficient grow
//! cores from their neighbourhoods, attach peripheral nodes whose attraction
//! passes a threshold, and emit complexes that are then deduplicated.

use crate::eva::{
    cohesion_sum, cx_wf, dedup_spec, greedy_keep, pairwise_non_overlapped, sorted_desc,
    stable_desc_of, Complex,
    MIN_SIZE,
};
use crate::fixed::{log10_fixed, log10_spec, ratio_lt, ratio_wf, Ratio, SCALE};
use crate::graph::{has_key, key_at, nodup_keys, Graph, MAX_EDGE_WEIGHT, MAX_NODE_COUNT};
use vstd::prelude::*;
use vstd::set::axiom_set_insert_len;

verus! {

/// The ordered neighbour pairs of `node` that are joined by an edge.
pub open spec fn cc_pairs(g: Graph, node: usize) -> Set<(usize, usize)> {
    Set::new(
        |p: (usize, usize)|
            has_key(g.adj(node as int), p.0) && has_key(g.adj(node as int), p.1) && p.0 != p.1
                && g.spec_has_edge(p.0, p.1),
    )
}

/// The clustering coefficient of `node`: joined ordered neighbour pairs over
/// `k · (k - 1)` for a neighbourhood of size `k`, and zero when `k < 2`.
pub open spec fn cc_of(g: Graph, node: usize) -> Ratio {
    let k = g.adj(node as int).len();
    if k < 2 {
        Ratio::spec_zero()
    } else {
        Ratio { num: cc_pairs(g, node).len() as u128, den: (k * (k - 1)) as u128 }
    }
}

/// The joined neighbour pairs seen once the outer scan is at entry `t1` and
/// the inner at entry `t2` of the adjacency list.
pub open spec fn cc_prefix(g: Graph, node: usize, t1: int, t2: int) -> Set<(usize, usize)> {
    let s = g.adj(node as int);
    Set::new(
        |p: (usize, usize)|
            cc_pairs(g, node).contains(p) && ((exists|u: int| 0 <= u < t1 && s[u].0 == p.0) || (
            0 <= t1 < s.len() && s[t1].0 == p.0 && exists|v: int| 0 <= v < t2 && s[v].0 == p.1)),
    )
}

impl Graph {
    /// The clustering coefficient of `node` as an exact ratio.
    pub fn clustering_coefficient(&self, node: usize) -> (r: Ratio)
        requires
            self.wf(),
            node < self.node_count,
        ensures
            r == cc_of(*self, node),
            ratio_wf(r),
    {
        proof {
            crate::graph::lemma_nodup_bounded_len(self.adj(node as int), self.node_count as int);
        }
        let k = self.nei_list[node].len();
        if k < 2 {
            return Ratio::zero();
        }
        let ghost s = self.adj(node as int);
        let mut count: u64 = 0;
        let mut t1: usize = 0;
        proof {
            assert(cc_prefix(*self, node, 0, 0) =~= Set::<(usize, usize)>::empty());
        }
        while t1 < k
            invariant
                t1 <= k,
                k == s.len(),
                k <= MAX_NODE_COUNT,
                self.wf(),
                node < self.node_count,
                s == self.adj(node as int),
                count <= t1 * k,
                cc_prefix(*self, node, t1 as int, 0).finite(),
                count == cc_prefix(*self, node, t1 as int, 0).len(),
            decreases k - t1,
        {
            let x = self.nei_list[node][t1].0;
            let mut t2: usize = 0;
            while t2 < k
                invariant
                    t2 <= k,
                    t1 < k,
                    k == s.len(),
                    k <= MAX_NODE_COUNT,
                    self.wf(),
                    node < self.node_count,
                    s == self.adj(node as int),
                    x == s[t1 as int].0,
                    count <= t1 * k + t2,
                    cc_prefix(*self, node, t1 as int, t2 as int).finite(),
                    count == cc_prefix(*self, node, t1 as int, t2 as int).len(),
                decreases k - t2,
            {
                let ghost pre = cc_prefix(*self, node, t1 as int, t2 as int);
                let y = self.nei_list[node][t2].0;
                let hit = x != y && self.has_edge(x, y);
                proof {
                    if hit {
                        assert(cc_pairs(*self, node).contains((x, y)));
                        assert(!pre.contains((x, y))) by {
                            if exists|u: int| 0 <= u < t1 && s[u].0 == x {
                                let u = choose|u: int| 0 <= u < t1 && s[u].0 == x;
                                assert(s[u].0 == s[t1 as int].0);
                            }
                        }
                        assert(cc_prefix(*self, node, t1 as int, t2 + 1) =~= pre.insert((x, y)))
                            by {
                            assert forall|p: (usize, usize)|
                                cc_prefix(*self, node, t1 as int, t2 + 1).contains(
                                    p,
                                ) implies pre.insert((x, y)).contains(p) by {
                                if !(exists|u: int| 0 <= u < t1 && s[u].0 == p.0) {
                                    let v = choose|v: int| 0 <= v < t2 + 1 && s[v].0 == p.1;
                                    if v == t2 {
                                        assert(p == (x, p.1));
                                    }
                                }
                            }
                        }
                        axiom_set_insert_len(pre, (x, y));
                    } else {
                        assert(cc_prefix(*self, node, t1 as int, t2 + 1) =~= pre) by {
                            assert forall|p: (usize, usize)|
                                cc_prefix(*self, node, t1 as int, t2 + 1).contains(
                                    p,
                                ) implies pre.contains(p) by {
                                if !(exists|u: int| 0 <= u < t1 && s[u].0 == p.0) {
                                    let v = choose|v: int| 0 <= v < t2 + 1 && s[v].0 == p.1;
                                    if v == t2 {
                                        assert(p.0 == x && p.1 == y);
                                        assert(!cc_pairs(*self, node).contains(p));
                                    }
                                }
                            }
                        }
                    }
                    assert(t1 * k + t2 + 1 <= 65_535 * 65_535 + 65_535) by (nonlinear_arith)
                        requires
                            0 <= t1 <= 65_535,
                            0 <= t2 <= 65_535,
                            0 < k <= 65_535,
                            t1 < k,
                            t2 < k,
                    ;
                }
                if hit {
                    count += 1;
                }
                t2 += 1;
            }
            proof {
                assert(cc_prefix(*self, node, t1 as int, k as int) =~= cc_prefix(
                    *self,
                    node,
                    t1 + 1,
                    0,
                )) by {
                    assert forall|p: (usize, usize)|
                        cc_prefix(*self, node, t1 as int, k as int).contains(p) implies cc_prefix(
                        *self,
                        node,
                        t1 + 1,
                        0,
                    ).contains(p) by {
                        if !(exists|u: int| 0 <= u < t1 && s[u].0 == p.0) {
                            assert(s[t1 as int].0 == p.0);
                        }
                    }
                    assert forall|p: (usize, usize)|
                        cc_prefix(*self, node, t1 + 1, 0).contains(p) implies cc_prefix(
                        *self,
                        node,
                        t1 as int,
                        k as int,
                    ).contains(p) by {
                        let u = choose|u: int| 0 <= u < t1 + 1 && s[u].0 == p.0;
                        if u == t1 {
                            assert(has_key(s, p.1));
                            let v = choose|v: int| 0 <= v < s.len() && s[v].0 == p.1;
                        }
                    }
                }
                assert((t1 + 1) * k == t1 * k + k) by (nonlinear_arith);
            }
            t1 += 1;
        }
        proof {
            assert(cc_prefix(*self, node, k as int, 0) =~= cc_pairs(*self, node)) by {
                assert forall|p: (usize, usize)|
                    cc_pairs(*self, node).contains(p) implies cc_prefix(
                    *self,
                    node,
                    k as int,
                    0,
                ).contains(p) by {
                    let u = choose|u: int| 0 <= u < s.len() && s[u].0 == p.0;
                }
            }
            assert((k as int) * (k as int) <= 65_535 * 65_535) by (nonlinear_arith)
                requires
                    0 <= k <= 65_535,
            ;
            crate::fixed::lemma_mul_le_bound(k as int, (k - 1) as int, 65_535, 65_535);
            assert(k * (k - 1) >= 2) by (nonlinear_arith)
                requires
                    k >= 2,
            ;
        }
        let den = (k as u64) * ((k - 1) as u64);
        Ratio::new(count as u128, den as u128)
    }

    /// The clustering coefficients of every node.
    pub fn all_cc(&self) -> (r: Vec<Ratio>)
        requires
            self.wf(),
        ensures
            r@.len() == self.node_count,
            forall|i: int| 0 <= i < r@.len() ==> r@[i] == cc_of(*self, i as usize),
            forall|i: int| 0 <= i < r@.len() ==> ratio_wf(#[trigger] r@[i]),
    {
        let mut r: Vec<Ratio> = Vec::new();
        let mut i: usize = 0;
        while i < self.node_count
            invariant
                i <= self.node_count,
                self.wf(),
                r@.len() == i,
                forall|t: int| 0 <= t < i ==> r@[t] == cc_of(*self, t as usize),
                forall|t: int| 0 <= t < i ==> ratio_wf(#[trigger] r@[t]),
            decreases self.node_count - i,
        {
            let c = self.clustering_coefficient(i);
            r.push(c);
            i += 1;
        }
        r
    }

    /// Seed order: nodes sorted by descending clustering coefficient, ties
    /// broken by ascending node index.
    pub fn cc_sort(&self) -> (r: Vec<usize>)
        requires
            self.wf(),
        ensures
            is_cc_order(*self, r@),
    {
        let ccs = self.all_cc();
        let n = self.node_count;
        let mut rest: Vec<usize> = Vec::new();
        let mut i: usize = 0;
        while i < n
            invariant
                i <= n,
                rest@.len() == i,
                forall|t: int| 0 <= t < i ==> rest@[t] == t,
            decreases n - i,
        {
            rest.push(i);
            i += 1;
        }
        let mut out: Vec<usize> = Vec::new();
        while rest.len() > 0
            invariant
                self.wf(),
                n == self.node_count,
                ccs@.len() == n,
                forall|t: int| 0 <= t < n ==> ccs@[t] == cc_of(*self, t as usize),
                forall|t: int| 0 <= t < n ==> ratio_wf(#[trigger] ccs@[t]),
                out@.len() + rest@.len() == n,
                forall|t: int| 0 <= t < out@.len() ==> (#[trigger] out@[t]) < n,
                forall|t: int| 0 <= t < rest@.len() ==> (#[trigger] rest@[t]) < n,
                forall|a: int, b: int|
                    0 <= a < b < rest@.len() ==> (#[trigger] rest@[a]) < (#[trigger] rest@[b]),
                forall|a: int, b: int|
                    0 <= a < out@.len() && 0 <= b < rest@.len() ==> (#[trigger] out@[a]) != (
                    #[trigger] rest@[b]),
                out@.no_duplicates(),
                forall|a: int, b: int|
                    0 <= a <= b < out@.len() ==> seed_before(
                        *self,
                        #[trigger] out@[a],
                        #[trigger] out@[b],
                    ),
                forall|a: int, b: int|
                    0 <= a < out@.len() && 0 <= b < rest@.len() ==> seed_before(
                        *self,
                        #[trigger] out@[a],
                        #[trigger] rest@[b],
                    ),
            decreases rest@.len(),
        {
            let mut best: usize = 0;
            let mut j: usize = 1;
            while j < rest.len()
                invariant
                    best < j <= rest@.len(),
                    rest@.len() > 0,
                    n == self.node_count,
                    ccs@.len() == n,
                    forall|t: int| 0 <= t < n ==> ccs@[t] == cc_of(*self, t as usize),
                    forall|t: int| 0 <= t < n ==> ratio_wf(#[trigger] ccs@[t]),
                    forall|t: int| 0 <= t < rest@.len() ==> (#[trigger] rest@[t]) < n,
                    forall|t: int|
                        0 <= t < best ==> ratio_lt(
                            ccs@[(#[trigger] rest@[t]) as int],
                            ccs@[rest@[best as int] as int],
                        ),
                    forall|t: int|
                        0 <= t < j ==> !ratio_lt(
                            ccs@[rest@[best as int] as int],
                            ccs@[(#[trigger] rest@[t]) as int],
                        ),
                decreases rest@.len() - j,
            {
                if ccs[rest[best]].lt(&ccs[rest[j]]) {
                    let ghost ob = best as int;
                    best = j;
                    proof {
                        assert forall|t: int| 0 <= t < j implies ratio_lt(
                            ccs@[(#[trigger] rest@[t]) as int],
                            ccs@[rest@[best as int] as int],
                        ) by {
                            if t < ob {
                                crate::fixed::lemma_ratio_trans(
                                    ccs@[rest@[t] as int],
                                    ccs@[rest@[ob] as int],
                                    ccs@[rest@[j as int] as int],
                                );
                            } else if t > ob {
                                crate::fixed::lemma_ratio_trans(
                                    ccs@[rest@[t] as int],
                                    ccs@[rest@[ob] as int],
                                    ccs@[rest@[j as int] as int],
                                );
                            }
                        }
                    }
                }
                j += 1;
            }
            let ghost pre_rest = rest@;
            let ghost pre_out = out@;
            let c = rest.remove(best);
            out.push(c);
            proof {
                assert forall|a: int, b: int|
                    0 <= a < out@.len() && 0 <= b < rest@.len() implies seed_before(
                    *self,
                    #[trigger] out@[a],
                    #[trigger] rest@[b],
                ) by {
                    let rb = if b < best {
                        pre_rest[b]
                    } else {
                        pre_rest[b + 1]
                    };
                    assert(rest@[b] == rb);
                    if a < pre_out.len() {
                        assert(out@[a] == pre_out[a]);
                    } else {
                        assert(out@[a] == c);
                        if b < best {
                            assert(ratio_lt(ccs@[rb as int], ccs@[c as int]));
                        } else {
                            assert(!ratio_lt(ccs@[c as int], ccs@[rb as int]));
                            if !ratio_lt(ccs@[rb as int], ccs@[c as int]) {
                                assert(c < rb);
                            }
                        }
                    }
                }
                assert forall|a: int, b: int|
                    0 <= a <= b < out@.len() implies seed_before(
                    *self,
                    #[trigger] out@[a],
                    #[trigger] out@[b],
                ) by {
                    if b < pre_out.len() {
                        assert(out@[a] == pre_out[a] && out@[b] == pre_out[b]);
                    } else if a < pre_out.len() {
                        assert(out@[a] == pre_out[a] && out@[b] == c);
                        assert(seed_before(*self, pre_out[a], c));
                    } else {
                        assert(out@[a] == c && out@[b] == c);
                        assert(seed_before(*self, c, c));
                    }
                }
            }
        }
        out
    }
}

/// The seed order: `x` comes no later than `y` when its clustering
/// coefficient is strictly larger, or equal with `x <= y`.
pub open spec fn seed_before(g: Graph, x: usize, y: usize) -> bool {
    ratio_lt(cc_of(g, y), cc_of(g, x)) || (!ratio_lt(cc_of(g, y), cc_of(g, x)) && !ratio_lt(
        cc_of(g, x),
        cc_of(g, y),
    ) && x <= y)
}

/// Whether `seeds` is the seed order of `g`: a permutation of the nodes,
/// sorted by descending clustering coefficient with ascending index ties.
pub open spec fn is_cc_order(g: Graph, seeds: Seq<usize>) -> bool {
    &&& seeds.len() == g.node_count
    &&& seeds.no_duplicates()
    &&& (forall|t: int| 0 <= t < seeds.len() ==> (#[trigger] seeds[t]) < g.node_count)
    &&& (forall|a: int, b: int|
        0 <= a <= b < seeds.len() ==> seed_before(g, #[trigger] seeds[a], #[trigger] seeds[b]))
}

/// Largest node weight: 65535 edges of the largest weight.
pub const MAX_NODE_WEIGHT: u64 = 6_553_500_000_000;

/// Largest attraction value: the squared largest node weight, rescaled and
/// divided by the squared smallest logarithm denominator.
pub const MAX_ATTRACT: u128 = 4_294_836_225_000_000_000_000;

/// The weight sum of the first `j` entries of an adjacency list.
pub open spec fn adj_weight_sum(s: Seq<(usize, u64)>, j: int) -> int
    decreases j,
{
    if j <= 0 {
        0
    } else {
        adj_weight_sum(s, j - 1) + s[j - 1].1
    }
}

/// The node weight of `p`: the total weight of its incident edges.
pub open spec fn nw_spec(g: Graph, p: usize) -> int {
    adj_weight_sum(g.adj(p as int), g.adj(p as int).len() as int)
}

/// Adjacency weight sums of a well-formed graph are bounded.
pub proof fn lemma_adj_weight_sum_bound(s: Seq<(usize, u64)>, j: int)
    requires
        forall|t: int| 0 <= t < s.len() ==> (#[trigger] s[t]).1 <= MAX_EDGE_WEIGHT,
        0 <= j <= s.len(),
    ensures
        0 <= adj_weight_sum(s, j) <= j * (MAX_EDGE_WEIGHT as int),
    decreases j,
{
    if j > 0 {
        lemma_adj_weight_sum_bound(s, j - 1);
        assert((j - 1) * (MAX_EDGE_WEIGHT as int) + MAX_EDGE_WEIGHT == j * (
        MAX_EDGE_WEIGHT as int)) by (nonlinear_arith);
    }
}

/// The node weight of `p`, computed over its adjacency list.
pub fn node_weight_of(g: &Graph, p: usize) -> (r: u64)
    requires
        g.wf(),
        p < g.node_count,
    ensures
        r == nw_spec(*g, p),
        r <= MAX_NODE_WEIGHT,
{
    proof {
        crate::graph::lemma_nodup_bounded_len(g.adj(p as int), g.node_count as int);
        lemma_adj_weight_sum_bound(g.adj(p as int), g.adj(p as int).len() as int);
        assert((g.adj(p as int).len() as int) * (MAX_EDGE_WEIGHT as int) <= 65_535
            * 100_000_000) by (nonlinear_arith)
            requires
                0 <= g.adj(p as int).len() <= 65_535,
                MAX_EDGE_WEIGHT == 100_000_000,
        ;
    }
    let row = &g.nei_list[p];
    let mut acc: u64 = 0;
    let mut t: usize = 0;
    while t < row.len()
        invariant
            t <= row@.len(),
            row@ == g.adj(p as int),
            g.wf(),
            p < g.node_count,
            acc == adj_weight_sum(row@, t as int),
            acc <= MAX_NODE_WEIGHT,
        decreases row@.len() - t,
    {
        proof {
            lemma_adj_weight_sum_bound(row@, t + 1);
            crate::graph::lemma_nodup_bounded_len(g.adj(p as int), g.node_count as int);
            assert((t + 1) * (MAX_EDGE_WEIGHT as int) <= 65_535 * 100_000_000)
                by (nonlinear_arith)
                requires
                    0 <= t + 1 <= 65_535,
                    MAX_EDGE_WEIGHT == 100_000_000,
            ;
        }
        acc = acc + row[t].1;
        t += 1;
    }
    acc
}

/// The attraction denominator for the edge `p – v`: one plus the base-10
/// logarithm of one plus the edge weight, in fixed point.
pub open spec fn dval_spec(g: Graph, p: usize, v: usize) -> int {
    SCALE + log10_spec(SCALE + g.spec_weight(p, v))
}

/// The pairwise attraction along the edge `p – v`: the product of the two
/// node weights, rescaled and divided by the squared denominator.
pub open spec fn attract_spec(g: Graph, p: usize, v: usize) -> int {
    nw_spec(g, p) * nw_spec(g, v) * SCALE / (dval_spec(g, p, v) * dval_spec(g, p, v))
}

/// The attraction along an existing edge, computed in fixed point.
pub fn attract_of(g: &Graph, p: usize, v: usize) -> (r: u128)
    requires
        g.wf(),
        p < g.node_count,
        v < g.node_count,
        g.spec_has_edge(p, v),
    ensures
        r == attract_spec(*g, p, v),
        r <= MAX_ATTRACT,
{
    let nwp = node_weight_of(g, p);
    let nwv = node_weight_of(g, v);
    let w = match g.edge_weight(p, v) {
        Some(w) => w,
        None => {
            proof {
                assert(false);
            }
            0
        },
    };
    proof {
        crate::eva::lemma_edge_weight_bound(*g, p, v);
    }
    let d = SCALE + log10_fixed(SCALE + w);
    proof {
        assert((nwp as int) * (nwv as int) <= 6_553_500_000_000 * 6_553_500_000_000)
            by (nonlinear_arith)
            requires
                0 <= nwp <= 6_553_500_000_000,
                0 <= nwv <= 6_553_500_000_000,
        ;
        assert((nwp as int) * (nwv as int) * (SCALE as int) <= 6_553_500_000_000
            * 6_553_500_000_000 * 10_000) by (nonlinear_arith)
            requires
                0 <= (nwp as int) * (nwv as int) <= 6_553_500_000_000 * 6_553_500_000_000,
                SCALE == 10_000,
        ;
        assert((d as int) * (d as int) >= 100_000_000) by (nonlinear_arith)
            requires
                d >= 10_000,
        ;
        assert((d as int) * (d as int) <= 210_000 * 210_000) by (nonlinear_arith)
            requires
                d <= 210_000,
        ;
        assert((nwp as int) * (nwv as int) * (SCALE as int) / ((d as int) * (d as int))
            <= MAX_ATTRACT) by (nonlinear_arith)
            requires
                0 <= (nwp as int) * (nwv as int) * (SCALE as int) <= 6_553_500_000_000
                    * 6_553_500_000_000 * 10_000,
                (d as int) * (d as int) >= 100_000_000,
                MAX_ATTRACT == 4_294_836_225_000_000_000_000,
        ;
    }
    (nwp as u128) * (nwv as u128) * (SCALE as u128) / ((d as u128) * (d as u128))
}

/// The influence of `p` over the first `j` of its neighbours: the total
/// attraction its neighbours exert on it.
pub open spec fn influence_spec(g: Graph, p: usize, j: int) -> int
    decreases j,
{
    if j <= 0 {
        0
    } else {
        influence_spec(g, p, j - 1) + attract_spec(g, g.adj(p as int)[j - 1].0, p)
    }
}

/// The full influence of `p`.
pub open spec fn influence_full(g: Graph, p: usize) -> int {
    influence_spec(g, p, g.adj(p as int).len() as int)
}

/// The influence of `p`, computed over its adjacency list.
pub fn influence_of(g: &Graph, p: usize) -> (r: u128)
    requires
        g.wf(),
        p < g.node_count,
    ensures
        r == influence_full(*g, p),
        r <= 65_535 * MAX_ATTRACT,
{
    proof {
        crate::graph::lemma_nodup_bounded_len(g.adj(p as int), g.node_count as int);
    }
    let deg = g.nei_list[p].len();
    let mut acc: u128 = 0;
    let mut t: usize = 0;
    while t < deg
        invariant
            t <= deg,
            deg == g.adj(p as int).len(),
            deg <= 65_535,
            g.wf(),
            p < g.node_count,
            acc == influence_spec(*g, p, t as int),
            acc <= t * MAX_ATTRACT,
        decreases deg - t,
    {
        let v = g.nei_list[p][t].0;
        proof {
            assert(g.spec_has_edge(p, v)) by {
                assert(g.adj(p as int)[t as int].0 == v);
            }
            assert(g.spec_has_edge(v, p));
        }
        let a = attract_of(g, v, p);
        proof {
            assert((t as int) * MAX_ATTRACT + MAX_ATTRACT == (t + 1) * MAX_ATTRACT)
                by (nonlinear_arith);
            assert((t + 1) * MAX_ATTRACT <= 65_535 * MAX_ATTRACT) by (nonlinear_arith)
                requires
                    0 <= t + 1 <= 65_535,
            ;
        }
        acc = acc + a;
        t += 1;
    }
    acc
}

/// The attraction a core exerts on the candidate `v`: the total attraction
/// of the core members adjacent to `v`, over the first `j` members.
pub open spec fn attach_sum(g: Graph, core: Seq<usize>, v: usize, j: int) -> int
    decreases j,
{
    if j <= 0 {
        0
    } else {
        attach_sum(g, core, v, j - 1) + if g.spec_has_edge(core[j - 1], v) {
            attract_spec(g, core[j - 1], v)
        } else {
            0
        }
    }
}

/// Whether candidate `v` is attached to the core: its influence is positive
/// and the core's attraction reaches the threshold `beta` of it.
pub open spec fn attach_ok(g: Graph, beta: u64, core: Seq<usize>, v: usize) -> bool {
    let influ = influence_full(g, v);
    influ > 0 && attach_sum(g, core, v, core.len() as int) * SCALE >= beta * influ
}

/// Attachment sums are bounded by the core size.
pub proof fn lemma_attach_sum_bound(g: Graph, core: Seq<usize>, v: usize, j: int)
    requires
        g.wf(),
        v < g.node_count,
        forall|t: int| 0 <= t < core.len() ==> (#[trigger] core[t]) < g.node_count,
        0 <= j <= core.len(),
    ensures
        0 <= attach_sum(g, core, v, j) <= j * MAX_ATTRACT,
    decreases j,
{
    if j > 0 {
        lemma_attach_sum_bound(g, core, v, j - 1);
        if g.spec_has_edge(core[j - 1], v) {
            lemma_attract_bound(g, core[j - 1], v);
        }
        assert((j - 1) * MAX_ATTRACT + MAX_ATTRACT == j * MAX_ATTRACT) by (nonlinear_arith);
    }
}

/// The attraction along an edge is bounded.
pub proof fn lemma_attract_bound(g: Graph, p: usize, v: usize)
    requires
        g.wf(),
        p < g.node_count,
        v < g.node_count,
    ensures
        0 <= attract_spec(g, p, v) <= MAX_ATTRACT,
{
    crate::graph::lemma_nodup_bounded_len(g.adj(p as int), g.node_count as int);
    crate::graph::lemma_nodup_bounded_len(g.adj(v as int), g.node_count as int);
    lemma_adj_weight_sum_bound(g.adj(p as int), g.adj(p as int).len() as int);
    lemma_adj_weight_sum_bound(g.adj(v as int), g.adj(v as int).len() as int);
    assert(nw_spec(g, p) <= 6_553_500_000_000 && nw_spec(g, v) <= 6_553_500_000_000)
        by (nonlinear_arith)
        requires
            nw_spec(g, p) <= g.adj(p as int).len() * (MAX_EDGE_WEIGHT as int),
            nw_spec(g, v) <= g.adj(v as int).len() * (MAX_EDGE_WEIGHT as int),
            0 <= g.adj(p as int).len() <= 65_535,
            0 <= g.adj(v as int).len() <= 65_535,
            MAX_EDGE_WEIGHT == 100_000_000,
    ;
    let d = dval_spec(g, p, v);
    assert(d >= SCALE) by {
        lemma_log10_nonneg(SCALE + g.spec_weight(p, v));
    }
    assert(0 <= nw_spec(g, p) * nw_spec(g, v) * (SCALE as int) <= 6_553_500_000_000
        * 6_553_500_000_000 * 10_000) by (nonlinear_arith)
        requires
            0 <= nw_spec(g, p) <= 6_553_500_000_000,
            0 <= nw_spec(g, v) <= 6_553_500_000_000,
            SCALE == 10_000,
    ;
    assert(d * d >= 100_000_000) by (nonlinear_arith)
        requires
            d >= 10_000,
    ;
    assert(nw_spec(g, p) * nw_spec(g, v) * (SCALE as int) / (d * d) <= MAX_ATTRACT)
        by (nonlinear_arith)
        requires
            0 <= nw_spec(g, p) * nw_spec(g, v) * (SCALE as int) <= 6_553_500_000_000
                * 6_553_500_000_000 * 10_000,
            d * d >= 100_000_000,
            MAX_ATTRACT == 4_294_836_225_000_000_000_000,
    ;
}

/// The base-10 logarithm of a value at least `SCALE` is non-negative.
pub proof fn lemma_log10_nonneg(x: int)
    requires
        x >= SCALE,
    ensures
        log10_spec(x) >= 0,
{
    lemma_log10_frac_nonneg(crate::fixed::norm_val(x), 4);
    assert(crate::fixed::norm_shift(x) * (SCALE as int) >= 0) by (nonlinear_arith)
        requires
            crate::fixed::norm_shift(x) >= 0,
            SCALE == 10_000,
    ;
}

/// Logarithm fraction digits are non-negative.
pub proof fn lemma_log10_frac_nonneg(m: int, rounds: nat)
    ensures
        crate::fixed::log10_frac(m, rounds) >= 0,
    decreases rounds,
{
    if rounds > 0 {
        lemma_log10_frac_nonneg(crate::fixed::log10_round_rest(m), (rounds - 1) as nat);
        crate::fixed::lemma_pow10_pos((rounds - 1) as nat);
        assert(crate::fixed::log10_round_digit(m) * crate::fixed::pow10((rounds - 1) as nat)
            >= 0) by (nonlinear_arith)
            requires
                crate::fixed::log10_round_digit(m) >= 0,
                crate::fixed::pow10((rounds - 1) as nat) >= 1,
        ;
    }
}

/// Whether `v` passes the attachment test against the given core.
pub fn attach_check(g: &Graph, beta: u64, core: &Vec<usize>, v: usize) -> (r: bool)
    requires
        g.wf(),
        v < g.node_count,
        beta <= SCALE,
        core@.len() <= MAX_NODE_COUNT,
        forall|t: int| 0 <= t < core@.len() ==> (#[trigger] core@[t]) < g.node_count,
    ensures
        r == attach_ok(*g, beta, core@, v),
{
    let influ = influence_of(g, v);
    if influ == 0 {
        return false;
    }
    let mut sum: u128 = 0;
    let mut t: usize = 0;
    while t < core.len()
        invariant
            t <= core@.len(),
            core@.len() <= MAX_NODE_COUNT,
            g.wf(),
            v < g.node_count,
            forall|u: int| 0 <= u < core@.len() ==> (#[trigger] core@[u]) < g.node_count,
            sum == attach_sum(*g, core@, v, t as int),
            sum <= t * MAX_ATTRACT,
        decreases core@.len() - t,
    {
        let d = core[t];
        if g.has_edge(d, v) {
            let a = attract_of(g, d, v);
            proof {
                assert((t as int) * MAX_ATTRACT + MAX_ATTRACT == (t + 1) * MAX_ATTRACT)
                    by (nonlinear_arith);
                assert((t + 1) * MAX_ATTRACT <= 65_535 * MAX_ATTRACT) by (nonlinear_arith)
                    requires
                        0 <= t + 1 <= 65_535,
                ;
            }
            sum = sum + a;
        } else {
            proof {
                assert((t as int) * MAX_ATTRACT <= (t + 1) * MAX_ATTRACT) by (nonlinear_arith)
                    requires
                        t >= 0,
                ;
            }
        }
        t += 1;
    }
    proof {
        assert((core@.len() as int) * MAX_ATTRACT <= 65_535 * MAX_ATTRACT) by (nonlinear_arith)
            requires
                0 <= core@.len() <= 65_535,
        ;
        crate::fixed::lemma_mul_le_bound(
            sum as int,
            SCALE as int,
            65_535 * MAX_ATTRACT,
            10_000,
        );
        crate::fixed::lemma_mul_le_bound(
            beta as int,
            influ as int,
            10_000,
            65_535 * MAX_ATTRACT,
        );
    }
    sum * (SCALE as u128) >= (beta as u128) * influ
}

/// The keys of the first `j` adjacency entries whose node the mask admits.
pub open spec fn masked_keys(s: Seq<(usize, u64)>, mask: Seq<bool>, j: int) -> Seq<usize>
    decreases j,
{
    if j <= 0 {
        Seq::empty()
    } else {
        let r = masked_keys(s, mask, j - 1);
        if mask[s[j - 1].0 as int] {
            r.push(s[j - 1].0)
        } else {
            r
        }
    }
}

/// Membership in the masked keys.
pub proof fn lemma_masked_keys_membership(s: Seq<(usize, u64)>, mask: Seq<bool>, j: int, v: usize)
    requires
        0 <= j <= s.len(),
    ensures
        masked_keys(s, mask, j).contains(v) <==> (exists|t: int|
            0 <= t < j && (#[trigger] s[t]).0 == v && mask[s[t].0 as int]),
    decreases j,
{
    if j > 0 {
        lemma_masked_keys_membership(s, mask, j - 1, v);
        let r = masked_keys(s, mask, j - 1);
        if mask[s[j - 1].0 as int] {
            assert forall|k: int|
                0 <= k < r.push(s[j - 1].0).len() implies r.push(s[j - 1].0)[k] == (if k < r.len() {
                r[k]
            } else {
                s[j - 1].0
            }) by {}
            if masked_keys(s, mask, j).contains(v) {
                let k = choose|k: int|
                    0 <= k < masked_keys(s, mask, j).len() && masked_keys(s, mask, j)[k] == v;
                if k < r.len() {
                    assert(r.contains(v));
                }
            }
            if exists|t: int| 0 <= t < j && (#[trigger] s[t]).0 == v && mask[s[t].0 as int] {
                let t = choose|t: int|
                    0 <= t < j && (#[trigger] s[t]).0 == v && mask[s[t].0 as int];
                if t < j - 1 {
                    assert(r.contains(v));
                    let k = choose|k: int| 0 <= k < r.len() && r[k] == v;
                    assert(r.push(s[j - 1].0)[k] == v);
                } else {
                    assert(r.push(s[j - 1].0)[r.len() as int] == v);
                }
            }
        }
    }
}

/// With unique adjacency keys the masked keys are distinct.
pub proof fn lemma_masked_keys_nodup(s: Seq<(usize, u64)>, mask: Seq<bool>, j: int)
    requires
        nodup_keys(s),
        0 <= j <= s.len(),
    ensures
        masked_keys(s, mask, j).no_duplicates(),
    decreases j,
{
    if j > 0 {
        lemma_masked_keys_nodup(s, mask, j - 1);
        if mask[s[j - 1].0 as int] {
            let r = masked_keys(s, mask, j - 1);
            assert(!r.contains(s[j - 1].0)) by {
                lemma_masked_keys_membership(s, mask, j - 1, s[j - 1].0);
            }
            assert forall|a: int, b: int|
                0 <= a < b < r.push(s[j - 1].0).len() implies (#[trigger] r.push(s[j - 1].0)[a])
                    != (#[trigger] r.push(s[j - 1].0)[b]) by {
                if b == r.len() {
                    if r.push(s[j - 1].0)[a] == s[j - 1].0 {
                        assert(r.contains(s[j - 1].0));
                    }
                }
            }
        }
    }
}

/// The core grown from `seed`: its neighbours that the mask admits, then
/// the seed itself.
pub open spec fn core_spec(g: Graph, seed: usize, mask: Seq<bool>) -> Seq<usize> {
    masked_keys(g.adj(seed as int), mask, g.adj(seed as int).len() as int).push(seed)
}

/// The keys of the first `j` adjacency entries.
pub open spec fn adj_keys(s: Seq<(usize, u64)>, j: int) -> Seq<usize>
    decreases j,
{
    if j <= 0 {
        Seq::empty()
    } else {
        adj_keys(s, j - 1).push(s[j - 1].0)
    }
}

/// All neighbours of the first `i` core members, in visiting order.
pub open spec fn nbr_keys(g: Graph, core: Seq<usize>, i: int) -> Seq<usize>
    decreases i,
{
    if i <= 0 {
        Seq::empty()
    } else {
        nbr_keys(g, core, i - 1) + adj_keys(
            g.adj(core[i - 1] as int),
            g.adj(core[i - 1] as int).len() as int,
        )
    }
}

/// First occurrences of `s`, skipping anything in `excl`.
pub open spec fn first_distinct(s: Seq<usize>, excl: Seq<usize>) -> Seq<usize>
    decreases s.len(),
{
    if s.len() == 0 {
        Seq::empty()
    } else if excl.contains(s[0]) {
        first_distinct(s.drop_first(), excl)
    } else {
        seq![s[0]] + first_distinct(s.drop_first(), excl.push(s[0]))
    }
}

/// Membership in the deduplicated sequence.
pub proof fn lemma_first_distinct_membership(s: Seq<usize>, excl: Seq<usize>, v: usize)
    ensures
        first_distinct(s, excl).contains(v) <==> (s.contains(v) && !excl.contains(v)),
    decreases s.len(),
{
    if s.len() > 0 {
        if excl.contains(s[0]) {
            lemma_first_distinct_membership(s.drop_first(), excl, v);
            lemma_seq_contains_first(s, v);
        } else {
            lemma_first_distinct_membership(s.drop_first(), excl.push(s[0]), v);
            lemma_seq_contains_first(s, v);
            let r = seq![s[0]] + first_distinct(s.drop_first(), excl.push(s[0]));
            assert(r[0] == s[0]);
            assert forall|k: int| 0 <= k < r.len() implies r[k] == (if k == 0 {
                s[0]
            } else {
                first_distinct(s.drop_first(), excl.push(s[0]))[k - 1]
            }) by {}
            if excl.push(s[0]).contains(v) && !excl.contains(v) {
                let k = choose|k: int|
                    0 <= k < excl.push(s[0]).len() && excl.push(s[0])[k] == v;
                assert(k == excl.len());
            }
            if r.contains(v) && v != s[0] {
                let k = choose|k: int| 0 <= k < r.len() && r[k] == v;
                assert(first_distinct(s.drop_first(), excl.push(s[0])).contains(v));
            }
            if first_distinct(s.drop_first(), excl.push(s[0])).contains(v) {
                let k = choose|k: int|
                    0 <= k < first_distinct(s.drop_first(), excl.push(s[0])).len()
                        && first_distinct(s.drop_first(), excl.push(s[0]))[k] == v;
                assert(r[k + 1] == v);
            }
            if excl.contains(v) {
                let k = choose|k: int| 0 <= k < excl.len() && excl[k] == v;
                assert(excl.push(s[0])[k] == v);
            }
        }
    }
}

/// A sequence holds `v` exactly when its head is `v` or its tail holds it.
proof fn lemma_seq_contains_first(s: Seq<usize>, v: usize)
    requires
        s.len() > 0,
    ensures
        s.contains(v) <==> (s[0] == v || s.drop_first().contains(v)),
{
    if s.contains(v) {
        let k = choose|k: int| 0 <= k < s.len() && s[k] == v;
        if k > 0 {
            assert(s.drop_first()[k - 1] == v);
        }
    }
    if s.drop_first().contains(v) {
        let k = choose|k: int| 0 <= k < s.drop_first().len() && s.drop_first()[k] == v;
        assert(s[k + 1] == v);
    }
}

/// Deduplicated sequences are duplicate-free and avoid the exclusions.
pub proof fn lemma_first_distinct_nodup(s: Seq<usize>, excl: Seq<usize>)
    ensures
        first_distinct(s, excl).no_duplicates(),
        forall|v: usize|
            first_distinct(s, excl).contains(v) ==> !excl.contains(v),
    decreases s.len(),
{
    lemma_first_distinct_membership(s, excl, arbitrary());
    assert forall|v: usize| first_distinct(s, excl).contains(v) implies !excl.contains(v) by {
        lemma_first_distinct_membership(s, excl, v);
    }
    if s.len() > 0 {
        if excl.contains(s[0]) {
            lemma_first_distinct_nodup(s.drop_first(), excl);
        } else {
            lemma_first_distinct_nodup(s.drop_first(), excl.push(s[0]));
            let inner = first_distinct(s.drop_first(), excl.push(s[0]));
            let r = seq![s[0]] + inner;
            assert forall|a: int, b: int| 0 <= a < b < r.len() implies r[a] != r[b] by {
                assert(r[b] == inner[b - 1]);
                if a == 0 {
                    assert(inner.contains(inner[b - 1]));
                    lemma_first_distinct_membership(s.drop_first(), excl.push(s[0]), inner[b - 1]);
                    if inner[b - 1] == s[0] {
                        assert(excl.push(s[0])[excl.len() as int] == s[0]);
                        assert(excl.push(s[0]).contains(s[0]));
                    }
                } else {
                    assert(r[a] == inner[a - 1]);
                }
            }
        }
    }
}

/// How the deduplication treats one more element at the end of its input.
pub proof fn lemma_first_distinct_push(s: Seq<usize>, v: usize, excl: Seq<usize>)
    ensures
        first_distinct(s.push(v), excl) == ({
            let r = first_distinct(s, excl);
            if excl.contains(v) || r.contains(v) {
                r
            } else {
                r.push(v)
            }
        }),
    decreases s.len(),
{
    reveal_with_fuel(first_distinct, 3);
    lemma_first_distinct_membership(s, excl, v);
    if s.len() == 0 {
        let sv = s.push(v);
        assert(sv[0] == v);
        assert(sv.drop_first() =~= Seq::<usize>::empty());
        if excl.contains(v) {
        } else {
            assert(first_distinct(Seq::<usize>::empty(), excl.push(v))
                =~= Seq::<usize>::empty());
            assert(first_distinct(sv, excl) =~= seq![v]);
            assert(first_distinct(s, excl).push(v) =~= seq![v]);
        }
    } else {
        let sv = s.push(v);
        assert(sv[0] == s[0]);
        assert(sv.drop_first() =~= s.drop_first().push(v));
        if excl.contains(s[0]) {
            lemma_first_distinct_push(s.drop_first(), v, excl);
            assert(first_distinct(sv, excl) == first_distinct(
                s.drop_first().push(v),
                excl,
            ));
            assert(first_distinct(s, excl) == first_distinct(s.drop_first(), excl));
        } else {
            lemma_first_distinct_push(s.drop_first(), v, excl.push(s[0]));
            lemma_first_distinct_membership(s.drop_first(), excl.push(s[0]), v);
            let inner = first_distinct(s.drop_first(), excl.push(s[0]));
            let r = seq![s[0]] + inner;
            assert(first_distinct(s, excl) == r);
            assert(excl.push(s[0]).contains(v) <==> (excl.contains(v) || v == s[0])) by {
                if excl.push(s[0]).contains(v) {
                    let k = choose|k: int|
                        0 <= k < excl.push(s[0]).len() && excl.push(s[0])[k] == v;
                    if k < excl.len() {
                        assert(excl[k] == v);
                    }
                }
                if excl.contains(v) {
                    let k = choose|k: int| 0 <= k < excl.len() && excl[k] == v;
                    assert(excl.push(s[0])[k] == v);
                }
                assert(excl.push(s[0])[excl.len() as int] == s[0]);
            }
            assert(r.contains(v) <==> (v == s[0] || inner.contains(v))) by {
                if r.contains(v) {
                    let k = choose|k: int| 0 <= k < r.len() && r[k] == v;
                    if k > 0 {
                        assert(inner[k - 1] == v);
                    }
                }
                if inner.contains(v) {
                    let k = choose|k: int| 0 <= k < inner.len() && inner[k] == v;
                    assert(r[k + 1] == v);
                }
                assert(r[0] == s[0]);
            }
            assert(first_distinct(sv, excl) == seq![s[0]] + first_distinct(
                s.drop_first().push(v),
                excl.push(s[0]),
            ));
            if excl.contains(v) || r.contains(v) {
                assert(excl.push(s[0]).contains(v) || inner.contains(v));
                assert(first_distinct(s.drop_first().push(v), excl.push(s[0])) == inner);
                assert(first_distinct(sv, excl) == r);
            } else {
                assert(first_distinct(s.drop_first().push(v), excl.push(s[0])) == inner.push(v));
                assert(seq![s[0]] + inner.push(v) =~= r.push(v));
                assert(first_distinct(sv, excl) == r.push(v));
            }
        }
    }
}

/// The periphery of a core: every neighbour of a core member that is not in
/// the core, each kept once in visiting order.
pub open spec fn peri_spec(g: Graph, core: Seq<usize>) -> Seq<usize> {
    first_distinct(nbr_keys(g, core, core.len() as int), core)
}

/// The periphery members that pass the attachment test, in order.
pub open spec fn attach_filter(g: Graph, beta: u64, core: Seq<usize>, peri: Seq<usize>, j: int) -> Seq<usize>
    decreases j,
{
    if j <= 0 {
        Seq::empty()
    } else {
        let r = attach_filter(g, beta, core, peri, j - 1);
        if attach_ok(g, beta, core, peri[j - 1]) {
            r.push(peri[j - 1])
        } else {
            r
        }
    }
}

/// The proteins a seed grows into: its core followed by the attached
/// periphery members.
pub open spec fn seed_proteins(g: Graph, beta: u64, seed: usize, mask: Seq<bool>) -> Seq<usize> {
    let core = core_spec(g, seed, mask);
    let peri = peri_spec(g, core);
    core + attach_filter(g, beta, core, peri, peri.len() as int)
}

/// Whether `s` holds the id `x`.
fn contains_id(s: &Vec<usize>, x: usize) -> (r: bool)
    ensures
        r == s@.contains(x),
{
    let mut j: usize = 0;
    while j < s.len()
        invariant
            j <= s@.len(),
            forall|t: int| 0 <= t < j ==> s@[t] != x,
        decreases s@.len() - j,
    {
        if s[j] == x {
            return true;
        }
        j += 1;
    }
    proof {
        if s@.contains(x) {
            let t = choose|t: int| 0 <= t < s@.len() && s@[t] == x;
        }
    }
    false
}

/// Grow the core of `seed` and its attached periphery.  Returns the core
/// and the full protein list (the core followed by the attachments).
fn expand_seed(g: &Graph, beta: u64, seed: usize, mask: &Vec<bool>) -> (r: (Vec<usize>, Vec<
    usize,
>))
    requires
        g.wf(),
        seed < g.node_count,
        mask@.len() == g.node_count,
        beta <= SCALE,
    ensures
        r.0@ == core_spec(*g, seed, mask@),
        r.1@ == seed_proteins(*g, beta, seed, mask@),
        r.0@.no_duplicates(),
        r.1@.no_duplicates(),
        forall|t: int| 0 <= t < r.0@.len() ==> (#[trigger] r.0@[t]) < g.node_count,
        forall|t: int| 0 <= t < r.1@.len() ==> (#[trigger] r.1@[t]) < g.node_count,
        r.0@.len() <= r.1@.len(),
        r.0@.contains(seed),
    {
        let ghost adj = g.adj(seed as int);
        // the core: masked neighbours, then the seed itself
        let mut core: Vec<usize> = Vec::new();
        let deg = g.nei_list[seed].len();
        let mut t: usize = 0;
        while t < deg
            invariant
                t <= deg,
                deg == adj.len(),
                adj == g.adj(seed as int),
                g.wf(),
                seed < g.node_count,
                mask@.len() == g.node_count,
                core@ == masked_keys(adj, mask@, t as int),
                forall|u: int| 0 <= u < core@.len() ==> (#[trigger] core@[u]) < g.node_count,
            decreases deg - t,
        {
            let v = g.nei_list[seed][t].0;
            if mask[v] {
                core.push(v);
            }
            t += 1;
        }
        proof {
            lemma_masked_keys_nodup(adj, mask@, adj.len() as int);
            lemma_masked_keys_membership(adj, mask@, adj.len() as int, seed);
            assert(!core@.contains(seed));
            assert forall|a: int, b: int|
                0 <= a < b < core@.push(seed).len() implies (#[trigger] core@.push(seed)[a]) != (
            #[trigger] core@.push(seed)[b]) by {
                if b == core@.len() {
                    if core@.push(seed)[a] == seed {
                        assert(core@.contains(seed));
                    }
                }
            }
        }
        core.push(seed);
        proof {
            crate::graph::lemma_distinct_ids_bound(core@, g.node_count as int);
        }
        // the periphery: neighbours of core members outside the core, each once
        let mut peri: Vec<usize> = Vec::new();
        let ghost mut seen: Seq<usize> = Seq::empty();
        proof {
            assert(first_distinct(seen, core@) =~= Seq::<usize>::empty());
            assert(nbr_keys(*g, core@, 0) =~= Seq::<usize>::empty());
        }
        let mut i: usize = 0;
        while i < core.len()
            invariant
                i <= core@.len(),
                g.wf(),
                mask@.len() == g.node_count,
                core@.len() <= MAX_NODE_COUNT,
                forall|u: int| 0 <= u < core@.len() ==> (#[trigger] core@[u]) < g.node_count,
                seen == nbr_keys(*g, core@, i as int),
                peri@ == first_distinct(seen, core@),
                forall|u: int| 0 <= u < peri@.len() ==> (#[trigger] peri@[u]) < g.node_count,
            decreases core@.len() - i,
        {
            let c = core[i];
            let cdeg = g.nei_list[c].len();
            let ghost cadj = g.adj(c as int);
            let mut j: usize = 0;
            proof {
                assert(adj_keys(cadj, 0) =~= Seq::<usize>::empty());
                assert(seen + adj_keys(cadj, 0) =~= seen);
            }
            let ghost seen0 = seen;
            while j < cdeg
                invariant
                    j <= cdeg,
                    cdeg == cadj.len(),
                    cadj == g.adj(c as int),
                    c < g.node_count,
                    g.wf(),
                    core@.len() <= MAX_NODE_COUNT,
                    forall|u: int| 0 <= u < core@.len() ==> (#[trigger] core@[u]) < g.node_count,
                    seen == seen0 + adj_keys(cadj, j as int),
                    peri@ == first_distinct(seen, core@),
                    forall|u: int| 0 <= u < peri@.len() ==> (#[trigger] peri@[u]) < g.node_count,
                decreases cdeg - j,
            {
                let v = g.nei_list[c][j].0;
                proof {
                    lemma_first_distinct_push(seen, v, core@);
                    assert(seen0 + adj_keys(cadj, j + 1) =~= seen.push(v));
                }
                let in_core = contains_id(&core, v);
                let in_peri = contains_id(&peri, v);
                if !in_core && !in_peri {
                    peri.push(v);
                }
                proof {
                    seen = seen.push(v);
                }
                j += 1;
            }
            proof {
                assert(nbr_keys(*g, core@, i + 1) == nbr_keys(*g, core@, i as int) + adj_keys(
                    cadj,
                    cadj.len() as int,
                ));
            }
            i += 1;
        }
        proof {
            lemma_first_distinct_nodup(seen, core@);
        }
        // the attachments: periphery members that pass the threshold
        let mut proteins: Vec<usize> = Vec::new();
        let mut t: usize = 0;
        while t < core.len()
            invariant
                t <= core@.len(),
                proteins@ == core@.take(t as int),
            decreases core@.len() - t,
        {
            proteins.push(core[t]);
            proof {
                assert(core@.take(t as int).push(core@[t as int]) =~= core@.take(t + 1));
            }
            t += 1;
        }
        proof {
            assert(core@.take(core@.len() as int) =~= core@);
            assert(proteins@ =~= core@ + attach_filter(*g, beta, core@, peri@, 0));
        }
        let mut t: usize = 0;
        while t < peri.len()
            invariant
                t <= peri@.len(),
                g.wf(),
                beta <= SCALE,
                core@.len() <= MAX_NODE_COUNT,
                forall|u: int| 0 <= u < core@.len() ==> (#[trigger] core@[u]) < g.node_count,
                forall|u: int| 0 <= u < peri@.len() ==> (#[trigger] peri@[u]) < g.node_count,
                proteins@ == core@ + attach_filter(*g, beta, core@, peri@, t as int),
            decreases peri@.len() - t,
        {
            let v = peri[t];
            if attach_check(g, beta, &core, v) {
                proteins.push(v);
                proof {
                    assert(core@ + attach_filter(*g, beta, core@, peri@, t as int).push(v)
                        =~= (core@ + attach_filter(*g, beta, core@, peri@, t as int)).push(v));
                }
            }
            t += 1;
        }
        // the protein list is duplicate-free: the core is, the attachments
        // come from the duplicate-free periphery, and the two are disjoint
        proof {
            let att = attach_filter(*g, beta, core@, peri@, peri@.len() as int);
            lemma_attach_filter_sub(*g, beta, core@, peri@, peri@.len() as int);
            assert forall|a: int, b: int|
                0 <= a < b < proteins@.len() implies (#[trigger] proteins@[a]) != (
            #[trigger] proteins@[b]) by {
                if a < core@.len() && b >= core@.len() {
                    assert(att.contains(proteins@[b])) by {
                        assert(att[b - core@.len()] == proteins@[b]);
                    }
                    assert(peri@.contains(proteins@[b]));
                    lemma_first_distinct_membership(seen, core@, proteins@[b]);
                    if proteins@[a] == proteins@[b] {
                        assert(core@.contains(proteins@[b])) by {
                            assert(core@[a] == proteins@[a]);
                        }
                    }
                } else if a >= core@.len() {
                    assert(att[a - core@.len()] != att[b - core@.len()]);
                }
            }
            assert(core@.contains(seed)) by {
                assert(core@[core@.len() - 1] == seed);
            }
        }
        (core, proteins)
    }

/// Attachment lists keep distinct periphery members only.
pub proof fn lemma_attach_filter_sub(g: Graph, beta: u64, core: Seq<usize>, peri: Seq<usize>, j: int)
    requires
        peri.no_duplicates(),
        0 <= j <= peri.len(),
    ensures
        attach_filter(g, beta, core, peri, j).no_duplicates(),
        forall|t: int|
            0 <= t < attach_filter(g, beta, core, peri, j).len() ==> peri.contains(
                #[trigger] attach_filter(g, beta, core, peri, j)[t],
            ),
    decreases j,
{
    if j > 0 {
        lemma_attach_filter_sub(g, beta, core, peri, j - 1);
        let r = attach_filter(g, beta, core, peri, j - 1);
        if attach_ok(g, beta, core, peri[j - 1]) {
            assert forall|t: int|
                0 <= t < r.push(peri[j - 1]).len() implies peri.contains(
                #[trigger] r.push(peri[j - 1])[t],
            ) by {
                if t == r.len() {
                    assert(peri[j - 1] == r.push(peri[j - 1])[t]);
                } else {
                    assert(r.push(peri[j - 1])[t] == r[t]);
                }
            }
            assert forall|a: int, b: int|
                0 <= a < b < r.push(peri[j - 1]).len() implies (#[trigger] r.push(peri[j - 1])[a])
                    != (#[trigger] r.push(peri[j - 1])[b]) by {
                if b == r.len() {
                    if r.push(peri[j - 1])[a] == peri[j - 1] {
                        assert(peri.contains(r[a]));
                        let u = choose|u: int| 0 <= u < peri.len() && peri[u] == r[a];
                        lemma_attach_members(g, beta, core, peri, j - 1, a);
                    }
                }
            }
        }
    }
}

/// Every attachment member appears earlier in the periphery than the next
/// one to be appended, so appending keeps entries distinct.
proof fn lemma_attach_members(g: Graph, beta: u64, core: Seq<usize>, peri: Seq<usize>, j: int, t: int)
    requires
        peri.no_duplicates(),
        0 <= j <= peri.len(),
        0 <= t < attach_filter(g, beta, core, peri, j).len(),
    ensures
        exists|u: int|
            0 <= u < j && peri[u] == attach_filter(g, beta, core, peri, j)[t],
    decreases j,
{
    if j > 0 {
        let r = attach_filter(g, beta, core, peri, j - 1);
        if attach_ok(g, beta, core, peri[j - 1]) {
            if t < r.len() {
                lemma_attach_members(g, beta, core, peri, j - 1, t);
            } else {
                assert(peri[j - 1] == attach_filter(g, beta, core, peri, j)[t]);
            }
        } else {
            lemma_attach_members(g, beta, core, peri, j - 1, t);
        }
    }
}

/// The view of a complex list: each complex as its protein list and score.
pub open spec fn cx_views(cs: Seq<Complex>) -> Seq<(Seq<usize>, Ratio)> {
    cs.map_values(|c: Complex| (c.proteins@, c.cohesion))
}

/// The exact cohesion ratio of a protein list.
pub open spec fn cohesion_ratio(g: Graph, prot: Seq<usize>) -> Ratio {
    Ratio {
        num: cohesion_sum(g, prot, prot.len() as int) as u128,
        den: (prot.len() * prot.len()) as u128,
    }
}

/// The set of nodes whose flag is set.
pub open spec fn visited_set(flags: Seq<bool>) -> Set<usize> {
    Set::new(|u: usize| (u as int) < flags.len() && flags[u as int])
}

/// The raw complexes the seed scan emits from position `k` on, given the
/// nodes already visited: every unvisited admitted seed grows its proteins,
/// marks its core visited, and is emitted when large enough.
pub open spec fn raw_spec(
    g: Graph,
    beta: u64,
    mask: Seq<bool>,
    seeds: Seq<usize>,
    visited: Set<usize>,
    k: int,
) -> Seq<(Seq<usize>, Ratio)>
    decreases seeds.len() - k,
        when 0 <= k <= seeds.len()
{
    if k >= seeds.len() {
        Seq::empty()
    } else {
        let s = seeds[k];
        if !visited.contains(s) && mask[s as int] {
            let prot = seed_proteins(g, beta, s, mask);
            let v2 = visited.union(core_spec(g, s, mask).to_set());
            if prot.len() >= MIN_SIZE {
                seq![(prot, cohesion_ratio(g, prot))] + raw_spec(g, beta, mask, seeds, v2, k + 1)
            } else {
                raw_spec(g, beta, mask, seeds, v2, k + 1)
            }
        } else {
            raw_spec(g, beta, mask, seeds, visited, k + 1)
        }
    }
}

/// What the masked clustering returns: the deduplication, by cohesion, of
/// exactly the complexes the seed scan emits in clustering-coefficient
/// order, sorted stably (equal cohesions keep the scan's order).
pub open spec fn pcegs_post(g: Graph, beta: u64, mask: Seq<bool>, r: Seq<Complex>) -> bool {
    exists|seeds: Seq<usize>, sorted: Seq<Complex>, raws: Seq<Complex>, f: Seq<int>|
        {
            &&& #[trigger] is_cc_order(g, seeds)
            &&& #[trigger] cx_views(raws) == raw_spec(g, beta, mask, seeds, Set::empty(), 0)
            &&& sorted.to_multiset() == raws.to_multiset()
            &&& #[trigger] stable_desc_of(raws, sorted, f)
            &&& r == dedup_spec(sorted)
        }
}

/// What every complex the clustering emits satisfies: well-formed, at least
/// the minimum size, within the node range, and carrying the exact cohesion
/// of its protein set.
pub open spec fn good_complex(g: Graph, c: Complex) -> bool {
    &&& cx_wf(c)
    &&& c.proteins@.len() >= MIN_SIZE
    &&& (forall|t: int| 0 <= t < c.proteins@.len() ==> (#[trigger] c.proteins@[t]) < g.node_count)
    &&& c.cohesion == (Ratio {
        num: cohesion_sum(g, c.proteins@, c.proteins@.len() as int) as u128,
        den: (c.proteins@.len() * c.proteins@.len()) as u128,
    })
}

/// Every survivor of the greedy scan comes from its accumulator or input.
pub proof fn lemma_greedy_elements(s: Seq<Complex>, acc: Seq<Complex>, i: int)
    requires
        0 <= i < greedy_keep(s, acc).len(),
    ensures
        acc.contains(greedy_keep(s, acc)[i]) || s.contains(greedy_keep(s, acc)[i]),
    decreases s.len(),
{
    if s.len() == 0 {
    } else {
        let c = greedy_keep(s, acc)[i];
        if exists|m: int| 0 <= m < acc.len() && crate::eva::overlapped(s[0], #[trigger] acc[m]) {
            lemma_greedy_elements(s.drop_first(), acc, i);
            if s.drop_first().contains(c) {
                let k = choose|k: int|
                    0 <= k < s.drop_first().len() && s.drop_first()[k] == c;
                assert(s[k + 1] == c);
            }
        } else {
            lemma_greedy_elements(s.drop_first(), acc.push(s[0]), i);
            if acc.push(s[0]).contains(c) {
                let k = choose|k: int| 0 <= k < acc.push(s[0]).len() && acc.push(s[0])[k] == c;
                if k < acc.len() {
                    assert(acc[k] == c);
                } else {
                    assert(s[0] == c);
                }
            }
            if s.drop_first().contains(c) {
                let k = choose|k: int|
                    0 <= k < s.drop_first().len() && s.drop_first()[k] == c;
                assert(s[k + 1] == c);
            }
        }
    }
}

/// Core-attachment clustering restricted to the nodes the mask admits:
/// every admitted, unvisited seed in clustering-coefficient order grows a
/// core and attachments; complexes of at least the minimum size are scored
/// and the result is deduplicated by cohesion.
pub fn pcegs_masked(g: &Graph, beta: u64, mask: &Vec<bool>) -> (r: Vec<Complex>)
    requires
        g.wf(),
        mask@.len() == g.node_count,
        beta <= SCALE,
    ensures
        pcegs_post(*g, beta, mask@, r@),
        forall|k: int| 0 <= k < r@.len() ==> good_complex(*g, #[trigger] r@[k]),
        pairwise_non_overlapped(r@),
{
    broadcast use vstd::seq_lib::group_to_multiset_ensures;

    let seeds = g.cc_sort();
    let n = g.node_count;
    let ghost total = raw_spec(*g, beta, mask@, seeds@, Set::empty(), 0);
    let mut visited: Vec<bool> = Vec::new();
    let mut i: usize = 0;
    while i < n
        invariant
            i <= n,
            visited@.len() == i,
            forall|u: int| 0 <= u < i ==> !visited@[u],
        decreases n - i,
    {
        visited.push(false);
        i += 1;
    }
    proof {
        assert(visited_set(visited@) =~= Set::<usize>::empty());
        assert(cx_views(Seq::<Complex>::empty()) + total =~= total);
        assert(cx_views(Seq::<Complex>::empty()) =~= Seq::<(Seq<usize>, Ratio)>::empty());
    }
    let mut raws: Vec<Complex> = Vec::new();
    let mut i: usize = 0;
    while i < seeds.len()
        invariant
            i <= seeds@.len(),
            g.wf(),
            n == g.node_count,
            mask@.len() == n,
            beta <= SCALE,
            visited@.len() == n,
            is_cc_order(*g, seeds@),
            forall|k: int| 0 <= k < raws@.len() ==> good_complex(*g, #[trigger] raws@[k]),
            total == raw_spec(*g, beta, mask@, seeds@, Set::empty(), 0),
            cx_views(raws@) + raw_spec(
                *g,
                beta,
                mask@,
                seeds@,
                visited_set(visited@),
                i as int,
            ) == total,
        decreases seeds@.len() - i,
    {
        let s = seeds[i];
        let ghost vset = visited_set(visited@);
        proof {
            assert(visited@[s as int] == vset.contains(s));
        }
        if !visited[s] && mask[s] {
            let (core, proteins) = expand_seed(g, beta, s, mask);
            let mut t: usize = 0;
            while t < core.len()
                invariant
                    t <= core@.len(),
                    visited@.len() == n,
                    forall|u: int| 0 <= u < core@.len() ==> (#[trigger] core@[u]) < n,
                    visited_set(visited@) == vset.union(core@.take(t as int).to_set()),
                decreases core@.len() - t,
            {
                let ghost pre = visited@;
                visited.set(core[t], true);
                proof {
                    assert(core@.take(t + 1).to_set() =~= core@.take(t as int).to_set().insert(
                        core@[t as int],
                    )) by {
                        assert forall|w: usize|
                            core@.take(t + 1).to_set().contains(w) implies core@.take(
                            t as int,
                        ).to_set().insert(core@[t as int]).contains(w) by {
                            let q = choose|q: int|
                                0 <= q < core@.take(t + 1).len() && (#[trigger] core@.take(
                                    t + 1,
                                )[q]) == w;
                            if q < t {
                                assert(core@.take(t as int)[q] == w);
                            }
                        }
                        assert forall|w: usize|
                            core@.take(t as int).to_set().insert(
                                core@[t as int],
                            ).contains(w) implies core@.take(t + 1).to_set().contains(w) by {
                            if core@.take(t as int).to_set().contains(w) {
                                let q = choose|q: int|
                                    0 <= q < core@.take(t as int).len() && core@.take(t as int)[q]
                                        == w;
                                assert(core@.take(t + 1)[q] == w);
                            } else {
                                assert(core@.take(t + 1)[t as int] == w);
                            }
                        }
                    }
                    assert(visited_set(visited@) =~= visited_set(pre).insert(core@[t as int]));
                }
                t += 1;
            }
            proof {
                assert(core@.take(core@.len() as int) =~= core@);
                assert(visited_set(visited@) =~= vset.union(core_spec(*g, s, mask@).to_set()));
            }
            let ghost v2 = visited_set(visited@);
            let ghost prot = seed_proteins(*g, beta, s, mask@);
            if proteins.len() >= MIN_SIZE {
                proof {
                    crate::graph::lemma_distinct_ids_bound(proteins@, n as int);
                }
                let coh = g.calculate_cohesion(&proteins);
                let c = Complex::new(proteins, coh);
                let ghost pre_raws = raws@;
                raws.push(c);
                proof {
                    assert(raw_spec(*g, beta, mask@, seeds@, vset, i as int) == seq![
                        (prot, cohesion_ratio(*g, prot)),
                    ] + raw_spec(*g, beta, mask@, seeds@, v2, i + 1));
                    assert(cx_views(raws@) =~= cx_views(pre_raws).push((proteins@, coh)));
                    assert((proteins@, coh) == (prot, cohesion_ratio(*g, prot)));
                    assert(cx_views(raws@) + raw_spec(*g, beta, mask@, seeds@, v2, i + 1)
                        =~= cx_views(pre_raws) + (seq![(prot, cohesion_ratio(*g, prot))]
                        + raw_spec(*g, beta, mask@, seeds@, v2, i + 1)));
                }
            } else {
                proof {
                    assert(raw_spec(*g, beta, mask@, seeds@, vset, i as int) == raw_spec(
                        *g,
                        beta,
                        mask@,
                        seeds@,
                        v2,
                        i + 1,
                    ));
                }
            }
        } else {
            proof {
                assert(raw_spec(*g, beta, mask@, seeds@, vset, i as int) == raw_spec(
                    *g,
                    beta,
                    mask@,
                    seeds@,
                    vset,
                    i + 1,
                ));
            }
        }
        i += 1;
    }
    proof {
        assert(raw_spec(*g, beta, mask@, seeds@, visited_set(visited@), seeds@.len() as int)
            =~= Seq::<(Seq<usize>, Ratio)>::empty());
        assert(cx_views(raws@) + raw_spec(
            *g,
            beta,
            mask@,
            seeds@,
            visited_set(visited@),
            seeds@.len() as int,
        ) =~= cx_views(raws@));
        assert(cx_views(raws@) == total);
    }
    let ghost raws0 = raws@;
    let r = update_by_cohesion_local(raws);
    proof {
        let (s, f): (Seq<Complex>, Seq<int>) = choose|s: Seq<Complex>, f: Seq<int>|
            (#[trigger] stable_desc_of(raws0, s, f)) && s.to_multiset() == raws0.to_multiset()
                && r@ == dedup_spec(s);
        lemma_dedup_good(*g, raws0, s, r@);
        assert(is_cc_order(*g, seeds@) && cx_views(raws0) == raw_spec(
            *g,
            beta,
            mask@,
            seeds@,
            Set::empty(),
            0,
        ) && s.to_multiset() == raws0.to_multiset() && stable_desc_of(raws0, s, f) && r@
            == dedup_spec(s));
    }
    r
}

/// Deduplicate and carry the per-complex guarantees through sorting and the
/// greedy scan.
fn update_by_cohesion_local(raws: Vec<Complex>) -> (r: Vec<Complex>)
    requires
        forall|k: int| 0 <= k < raws@.len() ==> cx_wf(#[trigger] raws@[k]),
    ensures
        exists|s: Seq<Complex>, f: Seq<int>|
            (#[trigger] stable_desc_of(raws@, s, f)) && s.to_multiset() == raws@.to_multiset()
                && r@ == dedup_spec(s),
        forall|k: int| 0 <= k < r@.len() ==> cx_wf(#[trigger] r@[k]),
        pairwise_non_overlapped(r@),
{
    broadcast use vstd::seq_lib::group_to_multiset_ensures;

    let ghost raws0 = raws@;
    let r = crate::eva::update_by_cohesion(raws);
    proof {
        let (s, f): (Seq<Complex>, Seq<int>) = choose|s: Seq<Complex>, f: Seq<int>|
            (#[trigger] stable_desc_of(raws0, s, f)) && s.to_multiset() == raws0.to_multiset()
                && r@ == dedup_spec(s);
        let kept = greedy_keep(s, Seq::empty());
        crate::eva::lemma_greedy_pairwise(s, Seq::empty());
        assert forall|a: int, b: int|
            0 <= a < r@.len() && 0 <= b < r@.len() && a != b implies !crate::eva::overlapped(
            #[trigger] r@[a],
            #[trigger] r@[b],
        ) by {
            assert(r@[a] == kept[a] && r@[b] == kept[b]);
        }
    }
    r
}

/// The transfer of the per-complex guarantee through the deduplication: the
/// survivors of a sorted permutation of good complexes are good.
pub proof fn lemma_dedup_good(g: Graph, raws: Seq<Complex>, s: Seq<Complex>, r: Seq<Complex>)
    requires
        forall|k: int| 0 <= k < raws.len() ==> good_complex(g, #[trigger] raws[k]),
        s.to_multiset() == raws.to_multiset(),
        r == dedup_spec(s),
    ensures
        forall|k: int| 0 <= k < s.len() ==> good_complex(g, #[trigger] s[k]),
        forall|k: int| 0 <= k < r.len() ==> good_complex(g, #[trigger] r[k]),
{
    broadcast use vstd::seq_lib::group_to_multiset_ensures;

    assert forall|k: int| 0 <= k < s.len() implies good_complex(g, #[trigger] s[k]) by {
        assert(s.to_multiset().count(s[k]) > 0) by {
            assert(s.contains(s[k]));
        }
        assert(raws.contains(s[k]));
        let u = choose|u: int| 0 <= u < raws.len() && raws[u] == s[k];
    }
    let kept = greedy_keep(s, Seq::empty());
    assert forall|k: int| 0 <= k < r.len() implies good_complex(g, #[trigger] r[k]) by {
        assert(r[k] == kept[k]);
        lemma_greedy_elements(s, Seq::empty(), k);
        assert(s.contains(kept[k]));
        let u = choose|u: int| 0 <= u < s.len() && s[u] == kept[k];
    }
}

/// A predicted complex carrying protein names instead of indices.
#[derive(Debug)]
pub struct NamedComplex {
    pub proteins: Vec<String>,
    pub cohesion: Ratio,
}

/// Whether the named complexes are exactly the given index complexes with
/// each index replaced by its protein label.
pub open spec fn named_of(g: Graph, cs: Seq<Complex>, named: Seq<NamedComplex>) -> bool {
    &&& named.len() == cs.len()
    &&& (forall|k: int|
        0 <= k < cs.len() ==> (#[trigger] named[k]).cohesion == cs[k].cohesion)
    &&& (forall|k: int|
        0 <= k < cs.len() ==> (#[trigger] named[k]).proteins@.len() == cs[k].proteins@.len())
    &&& (forall|k: int, j: int|
        0 <= k < cs.len() && 0 <= j < cs[k].proteins@.len() ==> (#[trigger] named[k].proteins@[j])@
            == g.id_protein@[cs[k].proteins@[j] as int]@)
}

/// Replace each protein index of each complex by its label.
pub fn label_complexes(g: &Graph, cs: Vec<Complex>) -> (r: Vec<NamedComplex>)
    requires
        g.wf(),
        g.labeled(),
        forall|k: int, j: int|
            0 <= k < cs@.len() && 0 <= j < (#[trigger] cs@[k]).proteins@.len() ==> (
            #[trigger] cs@[k].proteins@[j]) < g.node_count,
    ensures
        named_of(*g, cs@, r@),
{
    let mut r: Vec<NamedComplex> = Vec::new();
    let mut k: usize = 0;
    while k < cs.len()
        invariant
            k <= cs@.len(),
            g.wf(),
            g.labeled(),
            forall|t: int, j: int|
                0 <= t < cs@.len() && 0 <= j < (#[trigger] cs@[t]).proteins@.len() ==> (
                #[trigger] cs@[t].proteins@[j]) < g.node_count,
            r@.len() == k,
            forall|t: int|
                0 <= t < k ==> (#[trigger] r@[t]).cohesion == cs@[t].cohesion,
            forall|t: int|
                0 <= t < k ==> (#[trigger] r@[t]).proteins@.len() == cs@[t].proteins@.len(),
            forall|t: int, j: int|
                0 <= t < k && 0 <= j < cs@[t].proteins@.len() ==> (
                #[trigger] r@[t].proteins@[j])@ == g.id_protein@[cs@[t].proteins@[j] as int]@,
        decreases cs@.len() - k,
    {
        let c = &cs[k];
        let mut names: Vec<String> = Vec::new();
        let mut j: usize = 0;
        while j < c.proteins.len()
            invariant
                j <= c.proteins@.len(),
                g.wf(),
                g.labeled(),
                c == &cs@[k as int],
                k < cs@.len(),
                forall|t: int, j2: int|
                    0 <= t < cs@.len() && 0 <= j2 < (#[trigger] cs@[t]).proteins@.len() ==> (
                    #[trigger] cs@[t].proteins@[j2]) < g.node_count,
                names@.len() == j,
                forall|t: int|
                    0 <= t < j ==> (#[trigger] names@[t])@ == g.id_protein@[c.proteins@[t] as int]@,
            decreases c.proteins@.len() - j,
        {
            let p = c.proteins[j];
            names.push(g.id_protein[p].clone());
            j += 1;
        }
        r.push(NamedComplex { proteins: names, cohesion: c.cohesion });
        k += 1;
    }
    r
}

/// The mask that admits every node.
pub open spec fn full_mask(n: nat) -> Seq<bool> {
    Seq::new(n, |i: int| true)
}

/// Predict protein complexes: grow a complex from every unvisited seed in
/// clustering-coefficient order, then deduplicate by cohesion and carry the
/// protein labels over.
pub fn pcegs(g: &Graph, beta: u64) -> (r: Vec<NamedComplex>)
    requires
        g.wf(),
        g.labeled(),
        beta <= SCALE,
    ensures
        exists|cs: Seq<Complex>|
            (#[trigger] named_of(*g, cs, r@)) && pairwise_non_overlapped(cs) && (forall|k: int|
                0 <= k < cs.len() ==> good_complex(*g, #[trigger] cs[k])) && pcegs_post(
                *g,
                beta,
                full_mask(g.node_count as nat),
                cs,
            ),
{
    let n = g.node_count;
    let mut mask: Vec<bool> = Vec::new();
    let mut i: usize = 0;
    while i < n
        invariant
            i <= n,
            mask@.len() == i,
            forall|t: int| 0 <= t < i ==> mask@[t],
        decreases n - i,
    {
        mask.push(true);
        i += 1;
    }
    proof {
        assert(mask@ =~= full_mask(g.node_count as nat));
    }
    let cs = pcegs_masked(g, beta, &mask);
    let ghost cs0 = cs@;
    let r = label_complexes(g, cs);
    proof {
        assert(named_of(*g, cs0, r@));
    }
    r
}

/// The mask of the essential variant: a node may seed or join a core when
/// its label is in the reference set and it is not the last node.
///
/// The exclusion of the last node is an accident of this method's
/// established scan bound, which stops one node short of the count; it is
/// kept literally, as an intentional-but-unusual behaviour, so that the
/// output stays comparable with existing evaluation baselines.
pub open spec fn essential_mask(g: Graph, eps: Seq<String>) -> Seq<bool> {
    Seq::new(
        g.node_count as nat,
        |i: int|
            i + 1 < g.node_count && crate::graph::has_label(
                crate::graph::label_views(eps),
                g.id_protein@[i]@,
            ),
    )
}

/// The variant restricted to essential proteins: only nodes whose label is
/// in the reference set (and are not the last node) may seed or join a
/// core; attachments stay unrestricted.
pub fn pcegs_essential(g: &Graph, beta: u64, eps: &Vec<String>) -> (r: Vec<NamedComplex>)
    requires
        g.wf(),
        g.labeled(),
        g.node_count >= 1,
        beta <= SCALE,
    ensures
        exists|cs: Seq<Complex>|
            (#[trigger] named_of(*g, cs, r@)) && pairwise_non_overlapped(cs) && (forall|k: int|
                0 <= k < cs.len() ==> good_complex(*g, #[trigger] cs[k])) && pcegs_post(
                *g,
                beta,
                essential_mask(*g, eps@),
                cs,
            ),
{
    let n = g.node_count;
    let mut mask: Vec<bool> = Vec::new();
    let mut i: usize = 0;
    while i < n
        invariant
            i <= n,
            n == g.node_count,
            g.wf(),
            g.labeled(),
            mask@.len() == i,
            forall|t: int| 0 <= t < i ==> (#[trigger] mask@[t]) == essential_mask(*g, eps@)[t],
        decreases n - i,
    {
        let keep = if i + 1 < n {
            match crate::graph::find_label(eps, &g.id_protein[i]) {
                Some(_) => true,
                None => false,
            }
        } else {
            false
        };
        mask.push(keep);
        i += 1;
    }
    proof {
        assert(mask@ =~= essential_mask(*g, eps@));
    }
    let cs = pcegs_masked(g, beta, &mask);
    let ghost cs0 = cs@;
    let r = label_complexes(g, cs);
    proof {
        assert(named_of(*g, cs0, r@));
    }
    r
}

} // verus!

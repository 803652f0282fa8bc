//! Predicted protein complexes: overlap scoring, cohesion, and the greedy
//! deduplication of overlapping predictions.

use crate::fixed::{ratio_lt, ratio_wf, Ratio, SCALE};
use crate::graph::{Graph, MAX_EDGE_WEIGHT, MAX_NODE_COUNT};
use vstd::prelude::*;
use vstd::set::axiom_set_insert_len;

verus! {

/// Overlap bound of the deduplication step (0.6 at scale `SCALE`).
pub const OVERLAP_SCORE: u64 = 6_000;

/// Overlap-score threshold used when complexes are matched against a
/// reference set (0.2 at scale `SCALE`).
pub const THRESHOLD_OS: u64 = 2_000;

/// Smallest complex size that is reported.
pub const MIN_SIZE: usize = 3;

/// Largest complex size read from a reference file.
pub const MAX_SIZE: usize = 20;

/// A predicted complex: a set of protein indices and its cohesion score.
#[derive(Debug)]
pub struct Complex {
    pub proteins: Vec<usize>,
    pub cohesion: Ratio,
}

/// The protein set of a complex.
pub open spec fn pset(c: Complex) -> Set<usize> {
    c.proteins@.to_set()
}

/// A well-formed complex lists each protein once, within the supported node
/// range, and carries a well-formed cohesion ratio.
pub open spec fn cx_wf(c: Complex) -> bool {
    &&& c.proteins@.no_duplicates()
    &&& c.proteins@.len() <= MAX_NODE_COUNT
    &&& ratio_wf(c.cohesion)
}

/// Whether two complexes overlap: the shared-member count is at least 0.6
/// of the larger member count (compared exactly as 5·shared >= 3·larger).
/// Two complexes with no members at all do not overlap: their overlap
/// score, the quotient of two zero counts, is read as no overlap.
pub open spec fn overlapped(a: Complex, b: Complex) -> bool {
    let shared = pset(a).intersect(pset(b)).len();
    let larger = if pset(a).len() >= pset(b).len() {
        pset(a).len()
    } else {
        pset(b).len()
    };
    larger > 0 && shared * SCALE >= OVERLAP_SCORE * larger
}

/// The protein ids of the first `j` entries of `s`, as a set.
pub open spec fn ids_prefix(s: Seq<usize>, j: int) -> Set<usize> {
    Set::new(|k: usize| exists|t: int| 0 <= t < j && s[t] == k)
}

/// The full id set of a sequence is its `to_set`.
pub proof fn lemma_ids_prefix_full(s: Seq<usize>)
    ensures
        ids_prefix(s, s.len() as int) =~= s.to_set(),
{
    assert forall|k: usize| s.to_set().contains(k) implies ids_prefix(
        s,
        s.len() as int,
    ).contains(k) by {
        let t = choose|t: int| 0 <= t < s.len() && s[t] == k;
        assert(0 <= t < s.len() && s[t] == k);
    }
}

/// With distinct ids, the first `j` entries form a set of exactly `j` ids.
pub proof fn lemma_ids_prefix_card(s: Seq<usize>, j: int)
    requires
        s.no_duplicates(),
        0 <= j <= s.len(),
    ensures
        ids_prefix(s, j).finite(),
        ids_prefix(s, j).len() == j,
    decreases j,
{
    if j == 0 {
        assert(ids_prefix(s, 0) =~= Set::<usize>::empty());
    } else {
        lemma_ids_prefix_card(s, j - 1);
        assert(ids_prefix(s, j) =~= ids_prefix(s, j - 1).insert(s[j - 1]));
        assert(!ids_prefix(s, j - 1).contains(s[j - 1]));
        axiom_set_insert_len(ids_prefix(s, j - 1), s[j - 1]);
    }
}

/// Whether `s` holds the id `x`.
fn contains_id(s: &Vec<usize>, x: usize) -> (r: bool)
    ensures
        r == s@.contains(x),
{
    let mut j: usize = 0;
    while j < s.len()
        invariant
            j <= s@.len(),
            forall|t: int| 0 <= t < j ==> s@[t] != x,
        decreases s@.len() - j,
    {
        if s[j] == x {
            return true;
        }
        j += 1;
    }
    proof {
        if s@.contains(x) {
            let t = choose|t: int| 0 <= t < s@.len() && s@[t] == x;
        }
    }
    false
}

/// Count the ids shared by two lists; the first must be duplicate-free.
pub(crate) fn count_common_ids(s1: &Vec<usize>, s2: &Vec<usize>) -> (r: u64)
    requires
        s1@.no_duplicates(),
        s1@.len() <= 0xFFFF_FFFF,
    ensures
        r == s1@.to_set().intersect(s2@.to_set()).len(),
        r <= s1@.len(),
{
    proof {
        assert(ids_prefix(s1@, 0).intersect(s2@.to_set()) =~= Set::<usize>::empty());
    }
    let mut count: u64 = 0;
    let mut t: usize = 0;
    while t < s1.len()
        invariant
            t <= s1@.len(),
            s1@.len() <= 0xFFFF_FFFF,
            s1@.no_duplicates(),
            count <= t,
            ids_prefix(s1@, t as int).intersect(s2@.to_set()).finite(),
            count == ids_prefix(s1@, t as int).intersect(s2@.to_set()).len(),
        decreases s1@.len() - t,
    {
        let ghost pre = ids_prefix(s1@, t as int).intersect(s2@.to_set());
        let k = s1[t];
        let hit = contains_id(s2, k);
        proof {
            assert(!ids_prefix(s1@, t as int).contains(k));
            if hit {
                assert(ids_prefix(s1@, t + 1).intersect(s2@.to_set()) =~= pre.insert(k));
                axiom_set_insert_len(pre, k);
            } else {
                assert(ids_prefix(s1@, t + 1).intersect(s2@.to_set()) =~= pre);
            }
        }
        if hit {
            count += 1;
        }
        t += 1;
    }
    proof {
        lemma_ids_prefix_full(s1@);
        assert(ids_prefix(s1@, s1@.len() as int).intersect(s2@.to_set()) =~= s1@.to_set().intersect(
            s2@.to_set(),
        ));
    }
    count
}

impl Complex {
    /// A complex over the given protein indices with the given cohesion.
    pub fn new(proteins: Vec<usize>, cohesion: Ratio) -> (c: Complex)
        ensures
            c.proteins == proteins,
            c.cohesion == cohesion,
    {
        Complex { proteins, cohesion }
    }

    /// The shared-member count with `other`, and the overlap score
    /// shared² / (|self| · |other|) as an exact ratio (zero when either
    /// complex is empty).
    pub fn overlap_score(&self, other: &Complex) -> (r: (u64, Ratio))
        requires
            cx_wf(*self),
            cx_wf(*other),
        ensures
            r.0 == pset(*self).intersect(pset(*other)).len(),
            ({
                let denom = self.proteins@.len() * other.proteins@.len();
                &&& (denom > 0 ==> r.1 == (Ratio { num: (r.0 * r.0) as u128, den: denom as u128 }))
                &&& (denom == 0 ==> r.1 == Ratio::spec_zero())
                &&& ratio_wf(r.1)
            }),
    {
        let comsize = count_common_ids(&self.proteins, &other.proteins);
        proof {
            crate::fixed::lemma_mul_le_bound(comsize as int, comsize as int, 65_535, 65_535);
            crate::fixed::lemma_mul_le_bound(
                self.proteins@.len() as int,
                other.proteins@.len() as int,
                65_535,
                65_535,
            );
        }
        let denom = (self.proteins.len() as u64) * (other.proteins.len() as u64);
        let os = Ratio::new((comsize as u128) * (comsize as u128), denom as u128);
        (comsize, os)
    }

    /// Whether this complex overlaps `other` by at least the fixed bound.
    pub fn is_overlapped(&self, other: &Complex) -> (r: bool)
        requires
            cx_wf(*self),
            cx_wf(*other),
        ensures
            r == overlapped(*self, *other),
    {
        let comsize = count_common_ids(&self.proteins, &other.proteins);
        let len_self = self.proteins.len() as u64;
        let len_other = other.proteins.len() as u64;
        let larger = if len_self >= len_other {
            len_self
        } else {
            len_other
        };
        proof {
            lemma_ids_prefix_full(self.proteins@);
            lemma_ids_prefix_full(other.proteins@);
            lemma_ids_prefix_card(self.proteins@, self.proteins@.len() as int);
            lemma_ids_prefix_card(other.proteins@, other.proteins@.len() as int);
        }
        larger > 0 && comsize * SCALE >= OVERLAP_SCORE * larger
    }
}

/// Overlap is symmetric: the shared members and the larger size do not
/// depend on the order of the two complexes.
pub proof fn lemma_overlapped_symmetric(a: Complex, b: Complex)
    ensures
        overlapped(a, b) == overlapped(b, a),
{
    assert(pset(a).intersect(pset(b)) =~= pset(b).intersect(pset(a)));
}

impl Graph {
    /// The cohesion of a cluster: for each member, the weight of its edges
    /// into the cluster times one more than their number, averaged twice
    /// over the cluster size — as the exact ratio over size².
    pub fn calculate_cohesion(&self, cluster: &Vec<usize>) -> (r: Ratio)
        requires
            self.wf(),
            cluster@.len() > 0,
            cluster@.no_duplicates(),
            forall|t: int| 0 <= t < cluster@.len() ==> (#[trigger] cluster@[t]) < self.node_count,
        ensures
            r == (Ratio {
                num: cohesion_sum(*self, cluster@, cluster@.len() as int) as u128,
                den: (cluster@.len() * cluster@.len()) as u128,
            }),
            ratio_wf(r),
    {
        proof {
            crate::graph::lemma_distinct_ids_bound(cluster@, self.node_count as int);
        }
        let n = cluster.len();
        let mut acc: u128 = 0;
        let mut i: usize = 0;
        while i < n
            invariant
                i <= n,
                n == cluster@.len(),
                0 < n <= MAX_NODE_COUNT,
                self.wf(),
                cluster@.no_duplicates(),
                forall|t: int|
                    0 <= t < cluster@.len() ==> (#[trigger] cluster@[t]) < self.node_count,
                acc == cohesion_sum(*self, cluster@, i as int),
            decreases n - i,
        {
            let p = cluster[i];
            // edges from p into the cluster: their number and total weight
            let mut count: u64 = 0;
            let mut weight: u64 = 0;
            let mut j: usize = 0;
            proof {
                assert(cluster@.take(0) =~= Seq::<usize>::empty());
            }
            while j < n
                invariant
                    j <= n,
                    n == cluster@.len(),
                    n <= MAX_NODE_COUNT,
                    self.wf(),
                    p < self.node_count,
                    forall|t: int|
                        0 <= t < cluster@.len() ==> (#[trigger] cluster@[t]) < self.node_count,
                    count == row_count(*self, p, cluster@.take(j as int)),
                    weight == row_weight(*self, p, cluster@.take(j as int)),
                    count <= j,
                    weight <= j * MAX_EDGE_WEIGHT,
                decreases n - j,
            {
                let q = cluster[j];
                proof {
                    assert(cluster@.take(j + 1).drop_last() =~= cluster@.take(j as int));
                    assert(cluster@.take(j + 1).last() == cluster@[j as int]);
                }
                match self.edge_weight(p, q) {
                    Some(w) => {
                        proof {
                            lemma_edge_weight_bound(*self, p, q);
                        }
                        count += 1;
                        weight += w;
                    },
                    None => {},
                }
                j += 1;
            }
            proof {
                assert(cluster@.take(n as int) =~= cluster@);
                lemma_cohesion_sum_bound(*self, cluster@, i as int);
                lemma_row_bounds(*self, cluster@[i as int], cluster@);
                crate::fixed::lemma_mul_le_bound(
                    weight as int,
                    (count + 1) as int,
                    65_535 * (MAX_EDGE_WEIGHT as int),
                    65_536,
                );
                assert((i as int) * 429_490_176_000_000_000 <= 65_535 * 429_490_176_000_000_000)
                    by (nonlinear_arith)
                    requires
                        0 <= i <= 65_535,
                ;
            }
            acc = acc + (weight as u128) * ((count + 1) as u128);
            i += 1;
        }
        proof {
            assert(cluster@.take(n as int) =~= cluster@);
            lemma_cohesion_sum_bound(*self, cluster@, n as int);
            assert((n as int) * 429_490_176_000_000_000 <= 65_535 * 429_490_176_000_000_000)
                by (nonlinear_arith)
                requires
                    0 < n <= 65_535,
            ;
            crate::fixed::lemma_mul_le_bound(n as int, n as int, 65_535, 65_535);
            assert((n as int) * (n as int) >= 1) by (nonlinear_arith)
                requires
                    n >= 1,
            ;
        }
        Ratio::new(acc, (n as u128) * (n as u128))
    }
}

/// The weight stored for a present edge is within the graph bound.
pub proof fn lemma_edge_weight_bound(g: Graph, p: usize, q: usize)
    requires
        g.wf(),
        p < g.node_count,
        g.spec_has_edge(p, q),
    ensures
        g.spec_weight(p, q) <= MAX_EDGE_WEIGHT,
{
    let t = crate::graph::key_at(g.adj(p as int), q);
    assert(0 <= t < g.adj(p as int).len() && g.adj(p as int)[t].0 == q);
}

/// How many members of `cl` are neighbours of `p`.
pub open spec fn row_count(g: Graph, p: usize, cl: Seq<usize>) -> int
    decreases cl.len(),
{
    if cl.len() == 0 {
        0
    } else {
        row_count(g, p, cl.drop_last()) + if g.spec_has_edge(p, cl.last()) {
            1int
        } else {
            0int
        }
    }
}

/// The total weight of `p`'s edges into `cl`.
pub open spec fn row_weight(g: Graph, p: usize, cl: Seq<usize>) -> int
    decreases cl.len(),
{
    if cl.len() == 0 {
        0
    } else {
        row_weight(g, p, cl.drop_last()) + if g.spec_has_edge(p, cl.last()) {
            g.spec_weight(p, cl.last()) as int
        } else {
            0int
        }
    }
}

/// The cohesion numerator: over the first `j` members, the weight into the
/// cluster times one more than the neighbour count.
pub open spec fn cohesion_sum(g: Graph, cl: Seq<usize>, j: int) -> int
    decreases j,
{
    if j <= 0 {
        0
    } else {
        cohesion_sum(g, cl, j - 1) + row_weight(g, cl[j - 1], cl) * (row_count(g, cl[j - 1], cl)
            + 1)
    }
}

/// Row sums are bounded by the cluster size and the weight bound.
pub proof fn lemma_row_bounds(g: Graph, p: usize, cl: Seq<usize>)
    requires
        g.wf(),
        p < g.node_count,
        cl.len() <= MAX_NODE_COUNT,
    ensures
        0 <= row_count(g, p, cl) <= cl.len(),
        0 <= row_weight(g, p, cl) <= cl.len() * MAX_EDGE_WEIGHT,
    decreases cl.len(),
{
    if cl.len() > 0 {
        lemma_row_bounds(g, p, cl.drop_last());
        if g.spec_has_edge(p, cl.last()) {
            lemma_edge_weight_bound(g, p, cl.last());
        }
        assert((cl.len() - 1) * MAX_EDGE_WEIGHT + MAX_EDGE_WEIGHT == cl.len() * MAX_EDGE_WEIGHT)
            by (nonlinear_arith);
    }
}

/// The cohesion numerator stays within the `Ratio` bound: each member
/// contributes at most 65535 · MAX_EDGE_WEIGHT · 65536.
pub proof fn lemma_cohesion_sum_bound(g: Graph, cl: Seq<usize>, j: int)
    requires
        g.wf(),
        cl.len() <= MAX_NODE_COUNT,
        forall|t: int| 0 <= t < cl.len() ==> (#[trigger] cl[t]) < g.node_count,
        0 <= j <= cl.len(),
    ensures
        0 <= cohesion_sum(g, cl, j) <= j * 429_490_176_000_000_000,
    decreases j,
{
    if j > 0 {
        lemma_cohesion_sum_bound(g, cl, j - 1);
        lemma_row_bounds(g, cl[j - 1], cl);
        assert(row_weight(g, cl[j - 1], cl) * (row_count(g, cl[j - 1], cl) + 1)
            <= 429_490_176_000_000_000) by (nonlinear_arith)
            requires
                0 <= row_weight(g, cl[j - 1], cl) <= 65_535 * (MAX_EDGE_WEIGHT as int),
                0 <= row_count(g, cl[j - 1], cl) + 1 <= 65_536,
                MAX_EDGE_WEIGHT == 100_000_000,
        ;
        assert((j - 1) * 429_490_176_000_000_000 + 429_490_176_000_000_000 == j
            * 429_490_176_000_000_000) by (nonlinear_arith);
    }
}

/// Cohesion order over complex sequences: non-increasing.
pub open spec fn sorted_desc(s: Seq<Complex>) -> bool {
    forall|i: int, j: int|
        0 <= i <= j < s.len() ==> !ratio_lt((#[trigger] s[i]).cohesion, (#[trigger] s[j]).cohesion)
}

/// Whether `s` is the stable descending cohesion sort of `input`: `f` gives
/// each position of `s` the input position it came from, distinct positions
/// come from distinct inputs, the order is non-increasing, and of two equal
/// cohesions the earlier input element comes first.  Together these pin `s`
/// down: there is exactly one such rearrangement of `input`.
pub open spec fn stable_desc_of(input: Seq<Complex>, s: Seq<Complex>, f: Seq<int>) -> bool {
    &&& s.len() == input.len()
    &&& f.len() == input.len()
    &&& (forall|i: int| 0 <= i < f.len() ==> 0 <= #[trigger] f[i] < input.len())
    &&& (forall|i: int, j: int| 0 <= i < j < f.len() ==> f[i] != f[j])
    &&& (forall|i: int| 0 <= i < s.len() ==> #[trigger] s[i] == input[f[i]])
    &&& sorted_desc(s)
    &&& (forall|i: int, j: int|
        #![trigger f[i], f[j]]
        0 <= i < j < s.len() && !ratio_lt(s[j].cohesion, s[i].cohesion) ==> f[i] < f[j])
}

/// The greedy scan: walk `s` in order and keep a complex exactly when it
/// overlaps none of the complexes kept so far.
pub open spec fn greedy_keep(s: Seq<Complex>, acc: Seq<Complex>) -> Seq<Complex>
    decreases s.len(),
{
    if s.len() == 0 {
        acc
    } else {
        if exists|m: int| 0 <= m < acc.len() && overlapped(s[0], #[trigger] acc[m]) {
            greedy_keep(s.drop_first(), acc)
        } else {
            greedy_keep(s.drop_first(), acc.push(s[0]))
        }
    }
}

/// The result of deduplication: the greedy survivors of `s`, truncated to
/// their first half.
pub open spec fn dedup_spec(s: Seq<Complex>) -> Seq<Complex> {
    let kept = greedy_keep(s, Seq::empty());
    kept.take(kept.len() as int / 2)
}

/// How the greedy scan treats one more element at the end of its input.
proof fn lemma_greedy_push(s: Seq<Complex>, c: Complex, acc: Seq<Complex>)
    ensures
        greedy_keep(s.push(c), acc) == ({
            let kept = greedy_keep(s, acc);
            if exists|m: int| 0 <= m < kept.len() && overlapped(c, #[trigger] kept[m]) {
                kept
            } else {
                kept.push(c)
            }
        }),
    decreases s.len(),
{
    if s.len() == 0 {
        let sc = s.push(c);
        assert(sc[0] == c);
        assert(sc.drop_first() =~= Seq::<Complex>::empty());
        assert(greedy_keep(s, acc) == acc);
        if exists|m: int| 0 <= m < acc.len() && overlapped(c, #[trigger] acc[m]) {
            assert(greedy_keep(sc, acc) == greedy_keep(sc.drop_first(), acc));
            assert(greedy_keep(Seq::<Complex>::empty(), acc) == acc);
        } else {
            assert(greedy_keep(sc, acc) == greedy_keep(sc.drop_first(), acc.push(c)));
            assert(greedy_keep(Seq::<Complex>::empty(), acc.push(c)) == acc.push(c));
        }
    } else {
        assert(s.push(c)[0] == s[0]);
        assert(s.push(c).drop_first() =~= s.drop_first().push(c));
        if exists|m: int| 0 <= m < acc.len() && overlapped(s[0], #[trigger] acc[m]) {
            lemma_greedy_push(s.drop_first(), c, acc);
        } else {
            lemma_greedy_push(s.drop_first(), c, acc.push(s[0]));
        }
    }
}

/// Sort complexes by cohesion, largest first; among equal cohesions the
/// earlier input element comes first.
pub fn sort_by_cohesion_desc(cs: Vec<Complex>) -> (r: Vec<Complex>)
    requires
        forall|t: int| 0 <= t < cs@.len() ==> cx_wf(#[trigger] cs@[t]),
    ensures
        r@.to_multiset() == cs@.to_multiset(),
        sorted_desc(r@),
        exists|f: Seq<int>| stable_desc_of(cs@, r@, f),
        forall|t: int| 0 <= t < r@.len() ==> cx_wf(#[trigger] r@[t]),
{
    broadcast use vstd::seq_lib::group_to_multiset_ensures;

    let mut rest = cs;
    let mut out: Vec<Complex> = Vec::new();
    let ghost input = rest@;
    let ghost orig = rest@.to_multiset();
    let ghost mut rest_f: Seq<int> = Seq::new(rest@.len() as nat, |i: int| i);
    let ghost mut out_f: Seq<int> = Seq::empty();
    proof {
        assert(out@.to_multiset().add(rest@.to_multiset()) =~= orig);
    }
    while rest.len() > 0
        invariant
            out@.to_multiset().add(rest@.to_multiset()) == orig,
            sorted_desc(out@),
            forall|t: int| 0 <= t < rest@.len() ==> cx_wf(#[trigger] rest@[t]),
            forall|t: int| 0 <= t < out@.len() ==> cx_wf(#[trigger] out@[t]),
            forall|i: int, t: int|
                0 <= i < out@.len() && 0 <= t < rest@.len() ==> !ratio_lt(
                    (#[trigger] out@[i]).cohesion,
                    (#[trigger] rest@[t]).cohesion,
                ),
            rest_f.len() == rest@.len(),
            out_f.len() == out@.len(),
            out_f.len() + rest_f.len() == input.len(),
            forall|t: int|
                0 <= t < rest_f.len() ==> 0 <= #[trigger] rest_f[t] < input.len() && rest@[t]
                    == input[rest_f[t]],
            forall|i: int|
                0 <= i < out_f.len() ==> 0 <= #[trigger] out_f[i] < input.len() && out@[i]
                    == input[out_f[i]],
            forall|a: int, b: int| 0 <= a < b < rest_f.len() ==> rest_f[a] < rest_f[b],
            forall|i: int, t: int|
                0 <= i < out_f.len() && 0 <= t < rest_f.len() ==> #[trigger] out_f[i]
                    != #[trigger] rest_f[t],
            forall|i: int, j: int| 0 <= i < j < out_f.len() ==> out_f[i] != out_f[j],
            forall|i: int, j: int|
                #![trigger out_f[i], out_f[j]]
                0 <= i < j < out@.len() && !ratio_lt(out@[j].cohesion, out@[i].cohesion)
                    ==> out_f[i] < out_f[j],
            forall|i: int, t: int|
                #![trigger out_f[i], rest_f[t]]
                0 <= i < out@.len() && 0 <= t < rest@.len() && !ratio_lt(
                    rest@[t].cohesion,
                    out@[i].cohesion,
                ) ==> out_f[i] < rest_f[t],
        decreases rest@.len(),
    {
        // first position of a largest remaining cohesion: everything before
        // it sits strictly below it, nothing anywhere sits above it
        let mut best: usize = 0;
        let mut j: usize = 1;
        while j < rest.len()
            invariant
                best < j <= rest@.len(),
                rest@.len() > 0,
                forall|t: int| 0 <= t < rest@.len() ==> cx_wf(#[trigger] rest@[t]),
                forall|t: int|
                    0 <= t < j ==> !ratio_lt(
                        rest@[best as int].cohesion,
                        (#[trigger] rest@[t]).cohesion,
                    ),
                forall|t: int|
                    0 <= t < best ==> ratio_lt(
                        (#[trigger] rest@[t]).cohesion,
                        rest@[best as int].cohesion,
                    ),
            decreases rest@.len() - j,
        {
            if rest[best].cohesion.lt(&rest[j].cohesion) {
                let ghost old_best = best as int;
                best = j;
                proof {
                    assert forall|t: int| 0 <= t < j + 1 implies !ratio_lt(
                        rest@[best as int].cohesion,
                        (#[trigger] rest@[t]).cohesion,
                    ) by {
                        if t < j {
                            crate::fixed::lemma_ratio_trans(
                                rest@[t].cohesion,
                                rest@[old_best].cohesion,
                                rest@[j as int].cohesion,
                            );
                        }
                    }
                    assert forall|t: int| 0 <= t < best implies ratio_lt(
                        (#[trigger] rest@[t]).cohesion,
                        rest@[best as int].cohesion,
                    ) by {
                        if t != old_best {
                            crate::fixed::lemma_ratio_trans(
                                rest@[t].cohesion,
                                rest@[old_best].cohesion,
                                rest@[j as int].cohesion,
                            );
                        }
                    }
                }
            }
            j += 1;
        }
        let ghost pre_rest = rest@;
        let ghost pre_out = out@;
        let ghost pre_rest_f = rest_f;
        let ghost pre_out_f = out_f;
        let c = rest.remove(best);
        out.push(c);
        proof {
            out_f = pre_out_f.push(pre_rest_f[best as int]);
            rest_f = pre_rest_f.remove(best as int);
            assert(out@.to_multiset().add(rest@.to_multiset()) =~= orig) by {
                assert(rest@ == pre_rest.remove(best as int));
                vstd::seq_lib::to_multiset_remove::<Complex>(pre_rest, best as int);
                assert(out@ == pre_out.push(c));
                vstd::seq_lib::to_multiset_build::<Complex>(pre_out, c);
                vstd::seq_lib::to_multiset_contains::<Complex>(pre_rest, c);
                assert(pre_rest.contains(c));
            }
            assert forall|i: int, t: int|
                0 <= i < out@.len() && 0 <= t < rest@.len() implies !ratio_lt(
                (#[trigger] out@[i]).cohesion,
                (#[trigger] rest@[t]).cohesion,
            ) by {
                if t < best {
                    assert(rest@[t] == pre_rest[t]);
                } else {
                    assert(rest@[t] == pre_rest[t + 1]);
                }
                if i == pre_out.len() {
                    assert(out@[i] == c);
                } else {
                    assert(out@[i] == pre_out[i]);
                }
            }
            assert(sorted_desc(out@)) by {
                assert forall|i: int, j2: int| 0 <= i <= j2 < out@.len() implies !ratio_lt(
                    (#[trigger] out@[i]).cohesion,
                    (#[trigger] out@[j2]).cohesion,
                ) by {
                    if j2 == pre_out.len() {
                        if i < j2 {
                            assert(out@[i] == pre_out[i]);
                            assert(out@[j2] == c);
                            assert(pre_rest[best as int] == c);
                        }
                    } else {
                        assert(out@[i] == pre_out[i]);
                        assert(out@[j2] == pre_out[j2]);
                    }
                }
            }
            assert forall|t: int|
                0 <= t < rest_f.len() implies 0 <= #[trigger] rest_f[t] < input.len() && rest@[t]
                == input[rest_f[t]] by {
                if t < best {
                    assert(rest_f[t] == pre_rest_f[t] && rest@[t] == pre_rest[t]);
                } else {
                    assert(rest_f[t] == pre_rest_f[t + 1] && rest@[t] == pre_rest[t + 1]);
                }
            }
            assert forall|a: int, b: int| 0 <= a < b < rest_f.len() implies rest_f[a]
                < rest_f[b] by {
                let a2 = if a < best { a } else { a + 1 };
                let b2 = if b < best { b } else { b + 1 };
                assert(rest_f[a] == pre_rest_f[a2] && rest_f[b] == pre_rest_f[b2]);
            }
            assert forall|i: int, t: int|
                0 <= i < out_f.len() && 0 <= t < rest_f.len() implies #[trigger] out_f[i]
                != #[trigger] rest_f[t] by {
                let t2 = if t < best { t } else { t + 1 };
                assert(rest_f[t] == pre_rest_f[t2]);
                if i < pre_out_f.len() {
                    assert(out_f[i] == pre_out_f[i]);
                } else {
                    assert(out_f[i] == pre_rest_f[best as int]);
                    assert(t2 != best);
                }
            }
            assert forall|i: int, j2: int|
                #![trigger out_f[i], out_f[j2]]
                0 <= i < j2 < out@.len() && !ratio_lt(
                    out@[j2].cohesion,
                    out@[i].cohesion,
                ) implies out_f[i] < out_f[j2] by {
                if j2 == pre_out.len() {
                    assert(out@[j2] == c && out@[i] == pre_out[i]);
                    assert(out_f[j2] == pre_rest_f[best as int]);
                    assert(pre_rest[best as int] == c);
                } else {
                    assert(out@[i] == pre_out[i] && out@[j2] == pre_out[j2]);
                }
            }
            assert forall|i: int, t: int|
                #![trigger out_f[i], rest_f[t]]
                0 <= i < out@.len() && 0 <= t < rest@.len() && !ratio_lt(
                    rest@[t].cohesion,
                    out@[i].cohesion,
                ) implies out_f[i] < rest_f[t] by {
                let t2 = if t < best { t } else { t + 1 };
                assert(rest@[t] == pre_rest[t2] && rest_f[t] == pre_rest_f[t2]);
                if i < pre_out.len() {
                    assert(out@[i] == pre_out[i] && out_f[i] == pre_out_f[i]);
                } else {
                    assert(out@[i] == c && out_f[i] == pre_rest_f[best as int]);
                    assert(pre_rest[best as int] == c);
                    if t2 < best {
                        // everything before the first maximum sits strictly
                        // below it, so no tie can reach back over it
                        assert(ratio_lt(pre_rest[t2].cohesion, c.cohesion));
                        assert(false);
                    }
                }
            }
        }
    }
    proof {
        assert(stable_desc_of(input, out@, out_f));
    }
    out
}

/// Deduplicate by cohesion: sort largest-cohesion first and stably (equal
/// cohesions keep their input order), keep each complex that overlaps none
/// kept before it, and return the first half of the survivors.
pub fn update_by_cohesion(complexes: Vec<Complex>) -> (r: Vec<Complex>)
    requires
        forall|t: int| 0 <= t < complexes@.len() ==> cx_wf(#[trigger] complexes@[t]),
    ensures
        exists|s: Seq<Complex>, f: Seq<int>|
            (#[trigger] stable_desc_of(complexes@, s, f)) && s.to_multiset()
                == complexes@.to_multiset() && r@ == dedup_spec(s),
        forall|t: int| 0 <= t < r@.len() ==> cx_wf(#[trigger] r@[t]),
{
    let ghost input0 = complexes@;
    let mut rest = sort_by_cohesion_desc(complexes);
    let ghost sorted = rest@;
    let ghost sf = choose|f: Seq<int>| stable_desc_of(input0, sorted, f);
    let mut res: Vec<Complex> = Vec::new();
    let ghost mut k: int = 0;
    proof {
        assert(sorted.take(0) =~= Seq::<Complex>::empty());
        assert(sorted.skip(0) =~= sorted);
    }
    while rest.len() > 0
        invariant
            0 <= k <= sorted.len(),
            rest@ == sorted.skip(k),
            forall|t: int| 0 <= t < sorted.len() ==> cx_wf(#[trigger] sorted[t]),
            forall|t: int| 0 <= t < res@.len() ==> cx_wf(#[trigger] res@[t]),
            res@ == greedy_keep(sorted.take(k), Seq::empty()),
        decreases rest@.len(),
    {
        let ghost pre_rest = rest@;
        let c = rest.remove(0);
        proof {
            assert(pre_rest.remove(0) =~= sorted.skip(k + 1));
            assert(c == sorted[k]);
            assert(cx_wf(c));
        }
        let mut flag = true;
        let mut m: usize = 0;
        while m < res.len()
            invariant
                m <= res@.len(),
                cx_wf(c),
                forall|t: int| 0 <= t < res@.len() ==> cx_wf(#[trigger] res@[t]),
                flag <==> (forall|t: int| 0 <= t < m ==> !overlapped(c, #[trigger] res@[t])),
            decreases res@.len() - m,
        {
            if c.is_overlapped(&res[m]) {
                flag = false;
            }
            m += 1;
        }
        proof {
            assert(sorted.take(k + 1) =~= sorted.take(k).push(sorted[k]));
            lemma_greedy_push(sorted.take(k), sorted[k], Seq::empty());
            if flag {
                assert(!(exists|t: int|
                    0 <= t < res@.len() && overlapped(c, #[trigger] res@[t])));
            } else {
                assert(exists|t: int| 0 <= t < res@.len() && overlapped(c, #[trigger] res@[t]));
            }
        }
        if flag {
            res.push(c);
        }
        proof {
            k = k + 1;
        }
    }
    proof {
        assert(sorted.take(sorted.len() as int) =~= sorted);
    }
    let half = res.len() / 2;
    let ghost kept = res@;
    res.truncate(half);
    proof {
        assert(res@ =~= kept.take(kept.len() as int / 2));
        assert(res@ == dedup_spec(sorted));
        assert(stable_desc_of(input0, sorted, sf));
    }
    res
}

/// Whether no two distinct members of `s` overlap.
pub open spec fn pairwise_non_overlapped(s: Seq<Complex>) -> bool {
    forall|i: int, j: int|
        0 <= i < s.len() && 0 <= j < s.len() && i != j ==> !overlapped(
            #[trigger] s[i],
            #[trigger] s[j],
        )
}

/// The greedy scan keeps only complexes that overlap none kept earlier, so
/// its survivors are pairwise non-overlapping.
pub proof fn lemma_greedy_pairwise(s: Seq<Complex>, acc: Seq<Complex>)
    requires
        pairwise_non_overlapped(acc),
    ensures
        pairwise_non_overlapped(greedy_keep(s, acc)),
    decreases s.len(),
{
    if s.len() > 0 {
        if exists|m: int| 0 <= m < acc.len() && overlapped(s[0], #[trigger] acc[m]) {
            lemma_greedy_pairwise(s.drop_first(), acc);
        } else {
            assert(pairwise_non_overlapped(acc.push(s[0]))) by {
                assert forall|i: int, j: int|
                    0 <= i < acc.push(s[0]).len() && 0 <= j < acc.push(s[0]).len() && i
                        != j implies !overlapped(
                    #[trigger] acc.push(s[0])[i],
                    #[trigger] acc.push(s[0])[j],
                ) by {
                    if i == acc.len() {
                        assert(!overlapped(s[0], acc[j]));
                        lemma_overlapped_symmetric(acc[j], s[0]);
                    } else if j == acc.len() {
                        assert(!overlapped(s[0], acc[i]));
                        lemma_overlapped_symmetric(acc[i], s[0]);
                    }
                }
            }
            lemma_greedy_pairwise(s.drop_first(), acc.push(s[0]));
        }
    }
}

/// A complex is never held against itself: when no two distinct input
/// complexes overlap, the greedy scan keeps every one of them, although
/// every complex with at least one member overlaps itself.
pub proof fn lemma_greedy_keeps_all(s: Seq<Complex>, acc: Seq<Complex>)
    requires
        forall|i: int, t: int|
            0 <= i < s.len() && 0 <= t < acc.len() ==> !overlapped(
                #[trigger] s[i],
                #[trigger] acc[t],
            ),
        pairwise_non_overlapped(s),
    ensures
        greedy_keep(s, acc) == acc + s,
    decreases s.len(),
{
    if s.len() == 0 {
        assert(acc + s =~= acc);
    } else {
        assert(forall|i: int|
            0 <= i < s.drop_first().len() ==> s.drop_first()[i] == s[i + 1]);
        lemma_greedy_keeps_all(s.drop_first(), acc.push(s[0]));
        assert(acc.push(s[0]) + s.drop_first() =~= acc + s);
    }
}

} // verus!

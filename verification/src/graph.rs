//! Weighted undirected protein–protein interaction graph.
//!
//! Adjacency is stored per node as an association list from neighbour index
//! to fixed-point edge weight (see [`crate::fixed`]).  The structure keeps
//! three invariants: neighbour lists hold no duplicate keys, the relation is
//! symmetric with equal weights in both directions, and twice the edge count
//! equals the total of all list lengths.

use crate::fixed::{ratio_wf, Ratio};
use vstd::prelude::*;
use vstd::set::axiom_set_insert_len;
use vstd::set_lib::{lemma_int_range, lemma_len_subset, set_int_range};

verus! {

/// Largest accepted fixed-point edge weight (10^4 in real terms).
pub const MAX_EDGE_WEIGHT: u64 = 100_000_000;

/// Largest supported node count.
pub const MAX_NODE_COUNT: usize = 65_535;

/// Weighted undirected graph over nodes `0 .. node_count`, with an optional
/// protein label per node.
#[derive(Debug)]
pub struct Graph {
    pub node_count: usize,
    pub edge_count: usize,
    pub nei_list: Vec<Vec<(usize, u64)>>,
    pub id_protein: Vec<String>,
}

/// Whether the association list `s` holds the key `b`.
pub open spec fn has_key(s: Seq<(usize, u64)>, b: usize) -> bool {
    exists|j: int| 0 <= j < s.len() && s[j].0 == b
}

/// The position of key `b` in `s` (meaningful when `has_key(s, b)` and keys
/// are unique).
pub open spec fn key_at(s: Seq<(usize, u64)>, b: usize) -> int {
    choose|j: int| 0 <= j < s.len() && s[j].0 == b
}

/// The value stored under key `b` in `s`.
pub open spec fn weight_of(s: Seq<(usize, u64)>, b: usize) -> u64 {
    s[key_at(s, b)].1
}

/// No key occurs twice in `s`.
pub open spec fn nodup_keys(s: Seq<(usize, u64)>) -> bool {
    forall|j: int, k: int| 0 <= j < k < s.len() ==> (#[trigger] s[j]).0 != (#[trigger] s[k]).0
}

/// The keys of the first `j` entries of `s`, as a set of integers.
pub open spec fn keys_prefix(s: Seq<(usize, u64)>, j: int) -> Set<int> {
    Set::new(|k: int| exists|t: int| 0 <= t < j && s[t].0 == k)
}

/// The ids of the first `j` entries of a plain id sequence, as integers.
pub open spec fn ids_prefix_int(s: Seq<usize>, j: int) -> Set<int> {
    Set::new(|k: int| exists|t: int| 0 <= t < j && s[t] == k)
}

/// With distinct ids, the first `j` entries are `j` distinct ids.
pub proof fn lemma_ids_prefix_int_card(s: Seq<usize>, j: int)
    requires
        s.no_duplicates(),
        0 <= j <= s.len(),
    ensures
        ids_prefix_int(s, j).finite(),
        ids_prefix_int(s, j).len() == j,
    decreases j,
{
    if j == 0 {
        assert(ids_prefix_int(s, 0) =~= Set::<int>::empty());
    } else {
        lemma_ids_prefix_int_card(s, j - 1);
        assert(ids_prefix_int(s, j) =~= ids_prefix_int(s, j - 1).insert(s[j - 1] as int));
        assert(!ids_prefix_int(s, j - 1).contains(s[j - 1] as int));
        axiom_set_insert_len(ids_prefix_int(s, j - 1), s[j - 1] as int);
    }
}

/// A duplicate-free id list below `n` has at most `n` entries.
pub proof fn lemma_distinct_ids_bound(s: Seq<usize>, n: int)
    requires
        s.no_duplicates(),
        0 <= n,
        forall|t: int| 0 <= t < s.len() ==> ((#[trigger] s[t]) as int) < n,
    ensures
        s.len() <= n,
{
    lemma_ids_prefix_int_card(s, s.len() as int);
    lemma_int_range(0, n);
    lemma_len_subset(ids_prefix_int(s, s.len() as int), set_int_range(0, n));
}

/// The total length of the first `j` association lists.
pub open spec fn deg_sum(nei: Seq<Vec<(usize, u64)>>, j: int) -> int
    decreases j,
{
    if j <= 0 {
        0
    } else {
        deg_sum(nei, j - 1) + nei[j - 1]@.len()
    }
}

/// Under unique keys, the position of a present key is the position found.
pub proof fn lemma_key_at(s: Seq<(usize, u64)>, b: usize, j: int)
    requires
        nodup_keys(s),
        0 <= j < s.len(),
        s[j].0 == b,
    ensures
        key_at(s, b) == j,
        weight_of(s, b) == s[j].1,
        has_key(s, b),
{
    assert(has_key(s, b));
    let j2 = key_at(s, b);
    assert(0 <= j2 < s.len() && s[j2].0 == b);
}

/// With unique keys, the first `j` entries have exactly `j` distinct keys.
pub proof fn lemma_keys_prefix_card(s: Seq<(usize, u64)>, j: int)
    requires
        nodup_keys(s),
        0 <= j <= s.len(),
    ensures
        keys_prefix(s, j).finite(),
        keys_prefix(s, j).len() == j,
    decreases j,
{
    if j == 0 {
        assert(keys_prefix(s, 0) =~= Set::<int>::empty());
    } else {
        lemma_keys_prefix_card(s, j - 1);
        assert(keys_prefix(s, j) =~= keys_prefix(s, j - 1).insert(s[j - 1].0 as int));
        assert(!keys_prefix(s, j - 1).contains(s[j - 1].0 as int));
        axiom_set_insert_len(keys_prefix(s, j - 1), s[j - 1].0 as int);
    }
}

/// A list of unique keys below `n` has at most `n` entries.
pub proof fn lemma_nodup_bounded_len(s: Seq<(usize, u64)>, n: int)
    requires
        nodup_keys(s),
        0 <= n,
        forall|j: int| 0 <= j < s.len() ==> ((#[trigger] s[j]).0 as int) < n,
    ensures
        s.len() <= n,
{
    lemma_keys_prefix_card(s, s.len() as int);
    lemma_int_range(0, n);
    lemma_len_subset(keys_prefix(s, s.len() as int), set_int_range(0, n));
}

/// How `deg_sum` changes when one list is replaced.
pub proof fn lemma_deg_sum_update(
    nei: Seq<Vec<(usize, u64)>>,
    i: int,
    v: Vec<(usize, u64)>,
    j: int,
)
    requires
        0 <= i < nei.len(),
        j <= nei.len(),
    ensures
        deg_sum(nei.update(i, v), j) == deg_sum(nei, j) + (if 0 <= i < j {
            v@.len() - nei[i]@.len()
        } else {
            0
        }),
    decreases j,
{
    if j > 0 {
        lemma_deg_sum_update(nei, i, v, j - 1);
    }
}

/// A degree sum is never negative.
pub proof fn lemma_deg_sum_nonneg(nei: Seq<Vec<(usize, u64)>>, j: int)
    ensures
        deg_sum(nei, j) >= 0,
    decreases j,
{
    if j > 0 {
        lemma_deg_sum_nonneg(nei, j - 1);
    }
}

/// Every single list length is bounded by the degree sum that covers it.
pub proof fn lemma_deg_sum_lower(nei: Seq<Vec<(usize, u64)>>, i: int, j: int)
    requires
        0 <= i < j <= nei.len(),
    ensures
        deg_sum(nei, j) >= nei[i]@.len(),
        deg_sum(nei, j) >= deg_sum(nei, i),
        deg_sum(nei, j) >= 0,
    decreases j,
{
    lemma_deg_sum_nonneg(nei, i);
    if i < j - 1 {
        lemma_deg_sum_lower(nei, i, j - 1);
    }
}

/// Two distinct list lengths together are bounded by the degree sum.
pub proof fn lemma_deg_sum_lower2(nei: Seq<Vec<(usize, u64)>>, i: int, k: int, j: int)
    requires
        0 <= i < k < j <= nei.len(),
    ensures
        deg_sum(nei, j) >= nei[i]@.len() + nei[k]@.len(),
    decreases j,
{
    if k < j - 1 {
        lemma_deg_sum_lower2(nei, i, k, j - 1);
        lemma_deg_sum_lower(nei, j - 1, j);
    } else {
        lemma_deg_sum_lower(nei, i, j - 1);
    }
}

/// The degree sum of lists with unique keys below `n` is at most `j * n`.
pub proof fn lemma_deg_sum_bound(nei: Seq<Vec<(usize, u64)>>, j: int, n: int)
    requires
        0 <= n,
        0 <= j <= nei.len(),
        forall|a: int| 0 <= a < nei.len() ==> nodup_keys(#[trigger] nei[a]@),
        forall|a: int, t: int|
            0 <= a < nei.len() && 0 <= t < nei[a]@.len() ==> ((#[trigger] nei[a]@[t]).0 as int)
                < n,
    ensures
        deg_sum(nei, j) <= j * n,
    decreases j,
{
    if j > 0 {
        lemma_deg_sum_bound(nei, j - 1, n);
        lemma_nodup_bounded_len(nei[j - 1]@, n);
        assert((j - 1) * n + n == j * n) by (nonlinear_arith);
    }
}

/// Look up `b` in the association list `s`.
pub(crate) fn find_key(s: &Vec<(usize, u64)>, b: usize) -> (r: Option<usize>)
    ensures
        r is Some <==> has_key(s@, b),
        r is Some ==> (r->Some_0 as int) < s@.len() && s@[r->Some_0 as int].0 == b,
{
    let mut j: usize = 0;
    while j < s.len()
        invariant
            j <= s@.len(),
            forall|t: int| 0 <= t < j ==> (#[trigger] s@[t]).0 != b,
        decreases s@.len() - j,
    {
        if s[j].0 == b {
            return Some(j);
        }
        j += 1;
    }
    None
}

/// Replace the entry at position `j` of list `a`.
pub(crate) fn set_entry(nei: &mut Vec<Vec<(usize, u64)>>, a: usize, j: usize, e: (usize, u64))
    requires
        a < old(nei)@.len(),
        j < old(nei)@[a as int]@.len(),
    ensures
        final(nei)@.len() == old(nei)@.len(),
        final(nei)@[a as int]@ == old(nei)@[a as int]@.update(j as int, e),
        forall|x: int| 0 <= x < old(nei)@.len() && x != a ==> final(nei)@[x] == old(nei)@[x],
{
    let row = &mut nei[a];
    row.set(j, e);
}

/// Append an entry to list `a`.
pub(crate) fn push_entry(nei: &mut Vec<Vec<(usize, u64)>>, a: usize, e: (usize, u64))
    requires
        a < old(nei)@.len(),
    ensures
        final(nei)@.len() == old(nei)@.len(),
        final(nei)@[a as int]@ == old(nei)@[a as int]@.push(e),
        forall|x: int| 0 <= x < old(nei)@.len() && x != a ==> final(nei)@[x] == old(nei)@[x],
{
    let row = &mut nei[a];
    row.push(e);
}

/// Remove the entry at position `j` of list `a`.
fn remove_entry(nei: &mut Vec<Vec<(usize, u64)>>, a: usize, j: usize)
    requires
        a < old(nei)@.len(),
        j < old(nei)@[a as int]@.len(),
    ensures
        final(nei)@.len() == old(nei)@.len(),
        final(nei)@[a as int]@ == old(nei)@[a as int]@.remove(j as int),
        forall|x: int| 0 <= x < old(nei)@.len() && x != a ==> final(nei)@[x] == old(nei)@[x],
{
    let row = &mut nei[a];
    let _ = row.remove(j);
}

impl Graph {
    /// The adjacency list of node `a` as a sequence of (neighbour, weight).
    pub open spec fn adj(&self, a: int) -> Seq<(usize, u64)> {
        self.nei_list@[a]@
    }

    /// Whether the edge `a – b` is present.
    pub open spec fn spec_has_edge(&self, a: usize, b: usize) -> bool {
        (a as int) < self.nei_list@.len() && has_key(self.adj(a as int), b)
    }

    /// The weight of edge `a – b` (meaningful when present).
    pub open spec fn spec_weight(&self, a: usize, b: usize) -> u64 {
        weight_of(self.adj(a as int), b)
    }

    /// Structural invariant: adjacency lists sized to the node count, unique
    /// neighbour keys within node range (no self-loops), bounded weights,
    /// symmetric relation with equal weights, and twice the edge count equal
    /// to the total adjacency length.
    pub open spec fn wf(&self) -> bool {
        &&& self.node_count <= MAX_NODE_COUNT
        &&& self.nei_list@.len() == self.node_count
        &&& (forall|a: int| 0 <= a < self.node_count ==> nodup_keys(#[trigger] self.nei_list@[a]@))
        &&& (forall|a: int, t: int|
            0 <= a < self.node_count && 0 <= t < self.nei_list@[a]@.len() ==> ((
            #[trigger] self.nei_list@[a]@[t]).0 < self.node_count && (self.nei_list@[a]@[t].0
                as int) != a && self.nei_list@[a]@[t].1 <= MAX_EDGE_WEIGHT))
        &&& (forall|a: usize, b: usize|
            #[trigger] self.spec_has_edge(a, b) ==> self.spec_has_edge(b, a) && self.spec_weight(
                b,
                a,
            ) == self.spec_weight(a, b))
        &&& 2 * self.edge_count == deg_sum(self.nei_list@, self.node_count as int)
    }

    /// Whether every node carries a protein label, no two alike.
    pub open spec fn labeled(&self) -> bool {
        self.id_protein@.len() == self.node_count && label_views(
            self.id_protein@,
        ).no_duplicates()
    }

    /// A graph of `n_count` isolated nodes.
    pub fn new(n_count: usize) -> (g: Graph)
        requires
            n_count <= MAX_NODE_COUNT,
        ensures
            g.wf(),
            g.node_count == n_count,
            g.edge_count == 0,
            g.id_protein@.len() == 0,
            forall|a: usize, b: usize| !g.spec_has_edge(a, b),
    {
        let mut nei_list: Vec<Vec<(usize, u64)>> = Vec::new();
        let mut i: usize = 0;
        while i < n_count
            invariant
                i <= n_count,
                nei_list@.len() == i,
                forall|a: int| 0 <= a < i ==> (#[trigger] nei_list@[a]@).len() == 0,
                deg_sum(nei_list@, i as int) == 0,
            decreases n_count - i,
        {
            let ghost pre = nei_list@;
            nei_list.push(Vec::new());
            proof {
                assert(deg_sum(nei_list@, i as int) == deg_sum(pre, i as int)) by {
                    lemma_deg_sum_same(pre, nei_list@, i as int);
                }
            }
            i += 1;
        }
        Graph { node_count: n_count, edge_count: 0, nei_list, id_protein: Vec::new() }
    }

    /// Insert or overwrite the symmetric edge `a – b` with weight `w`; the
    /// edge count grows by one exactly when the edge was absent.
    pub fn add_edge(&mut self, a: usize, b: usize, w: u64)
        requires
            old(self).wf(),
            a < old(self).node_count,
            b < old(self).node_count,
            a != b,
            w <= MAX_EDGE_WEIGHT,
        ensures
            final(self).wf(),
            final(self).node_count == old(self).node_count,
            final(self).id_protein == old(self).id_protein,
            final(self).spec_has_edge(a, b) && final(self).spec_has_edge(b, a),
            final(self).spec_weight(a, b) == w && final(self).spec_weight(b, a) == w,
            forall|x: usize, y: usize|
                !((x == a && y == b) || (x == b && y == a)) ==> (#[trigger] final(self).spec_has_edge(x, y)) == old(self).spec_has_edge(x, y),
            forall|x: usize, y: usize|
                !((x == a && y == b) || (x == b && y == a)) && old(self).spec_has_edge(x, y)
                    ==> (#[trigger] final(self).spec_weight(x, y)) == old(self).spec_weight(x, y),
            old(self).spec_has_edge(a, b) ==> final(self).edge_count == old(self).edge_count,
            !old(self).spec_has_edge(a, b) ==> final(self).edge_count == old(self).edge_count
                + 1,
    {
        let ghost pre = *self;
        let found = find_key(&self.nei_list[a], b);
        match found {
            Some(i) => {
                proof {
                    assert(pre.spec_has_edge(a, b));
                    assert(pre.spec_has_edge(b, a));
                }
                set_entry(&mut self.nei_list, a, i, (b, w));
                let found_b = find_key(&self.nei_list[b], a);
                match found_b {
                    Some(j) => {
                        set_entry(&mut self.nei_list, b, j, (a, w));
                        proof {
                            lemma_add_edge_overwrite(pre, *self, a, b, w, i as int, j as int);
                        }
                    },
                    None => {
                        proof {
                            assert(self.adj(b as int) == pre.adj(b as int));
                            assert(has_key(pre.adj(b as int), a));
                            assert(false);
                        }
                    },
                }
            },
            None => {
                proof {
                    assert(!pre.spec_has_edge(a, b));
                    assert(!pre.spec_has_edge(b, a)) by {
                        if pre.spec_has_edge(b, a) {
                            assert(pre.spec_has_edge(a, b));
                        }
                    }
                }
                push_entry(&mut self.nei_list, a, (b, w));
                push_entry(&mut self.nei_list, b, (a, w));
                proof {
                    lemma_deg_sum_bound(
                        pre.nei_list@,
                        pre.node_count as int,
                        pre.node_count as int,
                    );
                    assert(pre.node_count * pre.node_count <= 4_294_836_225) by (nonlinear_arith)
                        requires
                            pre.node_count <= 65_535,
                    ;
                }
                self.edge_count = self.edge_count + 1;
                proof {
                    lemma_add_edge_insert(pre, *self, a, b, w);
                }
            },
        }
    }

    /// Whether the edge `a – b` is present.
    pub fn has_edge(&self, a: usize, b: usize) -> (r: bool)
        requires
            self.wf(),
            a < self.node_count,
            b < self.node_count,
        ensures
            r == self.spec_has_edge(a, b),
    {
        find_key(&self.nei_list[a], b).is_some()
    }

    /// The weight of edge `a – b`, or `None` when absent.
    pub fn edge_weight(&self, a: usize, b: usize) -> (r: Option<u64>)
        requires
            self.wf(),
            a < self.node_count,
        ensures
            r is Some <==> self.spec_has_edge(a, b),
            r is Some ==> r->Some_0 == self.spec_weight(a, b),
    {
        match find_key(&self.nei_list[a], b) {
            Some(j) => {
                proof {
                    lemma_key_at(self.adj(a as int), b, j as int);
                }
                Some(self.nei_list[a][j].1)
            },
            None => None,
        }
    }

    /// Remove the edge `a – b` in both directions; a no-op when absent.
    pub fn remove_edge(&mut self, a: usize, b: usize)
        requires
            old(self).wf(),
            a < old(self).node_count,
            b < old(self).node_count,
        ensures
            final(self).wf(),
            final(self).node_count == old(self).node_count,
            final(self).id_protein == old(self).id_protein,
            !final(self).spec_has_edge(a, b) && !final(self).spec_has_edge(b, a),
            forall|x: usize, y: usize|
                !((x == a && y == b) || (x == b && y == a)) ==> (#[trigger] final(self).spec_has_edge(x, y)) == old(self).spec_has_edge(x, y),
            forall|x: usize, y: usize|
                !((x == a && y == b) || (x == b && y == a)) && old(self).spec_has_edge(x, y)
                    ==> (#[trigger] final(self).spec_weight(x, y)) == old(self).spec_weight(x, y),
            old(self).spec_has_edge(a, b) ==> final(self).edge_count + 1 == old(self).edge_count,
            !old(self).spec_has_edge(a, b) ==> *final(self) == *old(self),
    {
        let ghost pre = *self;
        let found = find_key(&self.nei_list[a], b);
        match found {
            Some(i) => {
                proof {
                    assert(pre.spec_has_edge(a, b));
                    assert(pre.spec_has_edge(b, a));
                    assert(a != b) by {
                        assert(pre.adj(a as int)[i as int].0 == b);
                    }
                }
                remove_entry(&mut self.nei_list, a, i);
                let found_b = find_key(&self.nei_list[b], a);
                match found_b {
                    Some(j) => {
                        remove_entry(&mut self.nei_list, b, j);
                        proof {
                            if a < b {
                                lemma_deg_sum_lower2(
                                    pre.nei_list@,
                                    a as int,
                                    b as int,
                                    pre.node_count as int,
                                );
                            } else {
                                lemma_deg_sum_lower2(
                                    pre.nei_list@,
                                    b as int,
                                    a as int,
                                    pre.node_count as int,
                                );
                            }
                        }
                        self.edge_count = self.edge_count - 1;
                        proof {
                            lemma_remove_edge(pre, *self, a, b, i as int, j as int);
                        }
                    },
                    None => {
                        proof {
                            assert(has_key(pre.adj(b as int), a));
                            let j = key_at(pre.adj(b as int), a);
                            assert(pre.adj(b as int)[j].0 == a);
                            assert(self.adj(b as int) == pre.adj(b as int));
                            assert(false);
                        }
                    },
                }
            },
            None => {},
        }
    }
}

/// `deg_sum` only reads the first `j` lists.
pub proof fn lemma_deg_sum_same(s1: Seq<Vec<(usize, u64)>>, s2: Seq<Vec<(usize, u64)>>, j: int)
    requires
        forall|i: int| 0 <= i < j ==> s1[i] == s2[i],
    ensures
        deg_sum(s1, j) == deg_sum(s2, j),
    decreases j,
{
    if j > 0 {
        lemma_deg_sum_same(s1, s2, j - 1);
    }
}

/// After overwriting the entries for an existing edge in both directions,
/// the graph is well-formed with the same edge count and only that edge's
/// weight changed.
proof fn lemma_add_edge_overwrite(pre: Graph, post: Graph, a: usize, b: usize, w: u64, i: int, j: int)
    requires
        pre.wf(),
        a < pre.node_count,
        b < pre.node_count,
        a != b,
        w <= MAX_EDGE_WEIGHT,
        0 <= i < pre.adj(a as int).len(),
        pre.adj(a as int)[i].0 == b,
        0 <= j < pre.adj(b as int).len(),
        pre.adj(b as int)[j].0 == a,
        post.node_count == pre.node_count,
        post.edge_count == pre.edge_count,
        post.id_protein == pre.id_protein,
        post.nei_list@.len() == pre.nei_list@.len(),
        post.adj(a as int) == pre.adj(a as int).update(i, (b, w)),
        post.adj(b as int) == pre.adj(b as int).update(j, (a, w)),
        forall|x: int|
            0 <= x < pre.nei_list@.len() && x != a && x != b ==> post.nei_list@[x]
                == pre.nei_list@[x],
    ensures
        post.wf(),
        post.spec_has_edge(a, b) && post.spec_has_edge(b, a),
        post.spec_weight(a, b) == w && post.spec_weight(b, a) == w,
        forall|x: usize, y: usize|
            !((x == a && y == b) || (x == b && y == a)) ==> (#[trigger] post.spec_has_edge(x, y))
                == pre.spec_has_edge(x, y),
        forall|x: usize, y: usize|
            !((x == a && y == b) || (x == b && y == a)) && pre.spec_has_edge(x, y) ==> (
            #[trigger] post.spec_weight(x, y)) == pre.spec_weight(x, y),
{
    lemma_key_at(pre.adj(a as int), b, i);
    lemma_key_at(pre.adj(b as int), a, j);
    // keys of both rows are unchanged by the updates
    assert forall|x: usize, y: usize| true implies (#[trigger] post.spec_has_edge(x, y))
        == pre.spec_has_edge(x, y) by {
        if (x as int) < pre.nei_list@.len() {
            lemma_same_keys_has(pre.adj(x as int), post.adj(x as int), y);
        }
    }
    assert(nodup_keys(post.adj(a as int)));
    assert(nodup_keys(post.adj(b as int)));
    lemma_key_at(post.adj(a as int), b, i);
    lemma_key_at(post.adj(b as int), a, j);
    assert forall|x: usize, y: usize|
        !((x == a && y == b) || (x == b && y == a)) && pre.spec_has_edge(x, y) implies (
    #[trigger] post.spec_weight(x, y)) == pre.spec_weight(x, y) by {
        let t = key_at(pre.adj(x as int), y);
        lemma_key_at(pre.adj(x as int), y, t);
        if x == a {
            assert(t != i);
            assert(post.adj(x as int)[t] == pre.adj(x as int)[t]);
            lemma_key_at(post.adj(x as int), y, t);
        } else if x == b {
            assert(t != j);
            assert(post.adj(x as int)[t] == pre.adj(x as int)[t]);
            lemma_key_at(post.adj(x as int), y, t);
        } else {
            lemma_key_at(post.adj(x as int), y, t);
        }
    }
    // degree sum unchanged
    lemma_deg_sum_pointwise(pre.nei_list@, post.nei_list@, pre.node_count as int);
}

/// Lists with equal key sequences agree on `has_key`.
pub(crate) proof fn lemma_same_keys_has(s1: Seq<(usize, u64)>, s2: Seq<(usize, u64)>, y: usize)
    requires
        s1.len() == s2.len(),
        forall|t: int| 0 <= t < s1.len() ==> (#[trigger] s1[t]).0 == (#[trigger] s2[t]).0,
    ensures
        has_key(s1, y) == has_key(s2, y),
{
    if has_key(s1, y) {
        let t = choose|t: int| 0 <= t < s1.len() && s1[t].0 == y;
        assert(s2[t].0 == y);
    }
    if has_key(s2, y) {
        let t = choose|t: int| 0 <= t < s2.len() && s2[t].0 == y;
        assert(s1[t].0 == y);
    }
}

/// Two sequences of lists with equal lengths pointwise have equal degree sums.
proof fn lemma_deg_sum_pointwise(s1: Seq<Vec<(usize, u64)>>, s2: Seq<Vec<(usize, u64)>>, j: int)
    requires
        forall|i: int| 0 <= i < j ==> (#[trigger] s1[i]@).len() == (#[trigger] s2[i]@).len(),
    ensures
        deg_sum(s1, j) == deg_sum(s2, j),
    decreases j,
{
    if j > 0 {
        lemma_deg_sum_pointwise(s1, s2, j - 1);
    }
}

/// After appending the entries for a fresh edge in both directions, the
/// graph is well-formed with one more edge.
proof fn lemma_add_edge_insert(pre: Graph, post: Graph, a: usize, b: usize, w: u64)
    requires
        pre.wf(),
        a < pre.node_count,
        b < pre.node_count,
        a != b,
        w <= MAX_EDGE_WEIGHT,
        !has_key(pre.adj(a as int), b),
        !has_key(pre.adj(b as int), a),
        post.node_count == pre.node_count,
        post.edge_count == pre.edge_count + 1,
        post.id_protein == pre.id_protein,
        post.nei_list@.len() == pre.nei_list@.len(),
        post.adj(a as int) == pre.adj(a as int).push((b, w)),
        post.adj(b as int) == pre.adj(b as int).push((a, w)),
        forall|x: int|
            0 <= x < pre.nei_list@.len() && x != a && x != b ==> post.nei_list@[x]
                == pre.nei_list@[x],
    ensures
        post.wf(),
        post.spec_has_edge(a, b) && post.spec_has_edge(b, a),
        post.spec_weight(a, b) == w && post.spec_weight(b, a) == w,
        forall|x: usize, y: usize|
            !((x == a && y == b) || (x == b && y == a)) ==> (#[trigger] post.spec_has_edge(x, y))
                == pre.spec_has_edge(x, y),
        forall|x: usize, y: usize|
            !((x == a && y == b) || (x == b && y == a)) && pre.spec_has_edge(x, y) ==> (
            #[trigger] post.spec_weight(x, y)) == pre.spec_weight(x, y),
{
    let la = pre.adj(a as int).len() as int;
    let lb = pre.adj(b as int).len() as int;
    lemma_key_at(post.adj(a as int), b, la);
    lemma_key_at(post.adj(b as int), a, lb);
    assert forall|x: usize, y: usize|
        !((x == a && y == b) || (x == b && y == a)) implies (#[trigger] post.spec_has_edge(x, y))
        == pre.spec_has_edge(x, y) by {
        if (x as int) < pre.nei_list@.len() {
            if x == a {
                if has_key(post.adj(x as int), y) {
                    let t = choose|t: int|
                        0 <= t < post.adj(x as int).len() && post.adj(x as int)[t].0 == y;
                    assert(t != la);
                    assert(pre.adj(x as int)[t].0 == y);
                } else if has_key(pre.adj(x as int), y) {
                    let t = choose|t: int|
                        0 <= t < pre.adj(x as int).len() && pre.adj(x as int)[t].0 == y;
                    assert(post.adj(x as int)[t].0 == y);
                }
            } else if x == b {
                if has_key(post.adj(x as int), y) {
                    let t = choose|t: int|
                        0 <= t < post.adj(x as int).len() && post.adj(x as int)[t].0 == y;
                    assert(t != lb);
                    assert(pre.adj(x as int)[t].0 == y);
                } else if has_key(pre.adj(x as int), y) {
                    let t = choose|t: int|
                        0 <= t < pre.adj(x as int).len() && pre.adj(x as int)[t].0 == y;
                    assert(post.adj(x as int)[t].0 == y);
                }
            } else {
                lemma_same_keys_has(pre.adj(x as int), post.adj(x as int), y);
            }
        }
    }
    assert forall|x: usize, y: usize|
        !((x == a && y == b) || (x == b && y == a)) && pre.spec_has_edge(x, y) implies (
    #[trigger] post.spec_weight(x, y)) == pre.spec_weight(x, y) by {
        let t = key_at(pre.adj(x as int), y);
        lemma_key_at(pre.adj(x as int), y, t);
        if x == a || x == b {
            assert(post.adj(x as int)[t] == pre.adj(x as int)[t]);
            lemma_key_at(post.adj(x as int), y, t);
        } else {
            lemma_key_at(post.adj(x as int), y, t);
        }
    }
    // degree sum grew by exactly two
    let mid = pre.nei_list@.update(a as int, post.nei_list@[a as int]);
    lemma_deg_sum_update(pre.nei_list@, a as int, post.nei_list@[a as int], pre.node_count as int);
    lemma_deg_sum_update(mid, b as int, post.nei_list@[b as int], pre.node_count as int);
    lemma_deg_sum_same(mid.update(b as int, post.nei_list@[b as int]), post.nei_list@, pre.node_count as int);
}

/// After removing the entries of an existing edge in both directions, the
/// graph is well-formed with one less edge.
proof fn lemma_remove_edge(pre: Graph, post: Graph, a: usize, b: usize, i: int, j: int)
    requires
        pre.wf(),
        a < pre.node_count,
        b < pre.node_count,
        a != b,
        0 <= i < pre.adj(a as int).len(),
        pre.adj(a as int)[i].0 == b,
        0 <= j < pre.adj(b as int).len(),
        pre.adj(b as int)[j].0 == a,
        post.node_count == pre.node_count,
        post.edge_count + 1 == pre.edge_count,
        post.id_protein == pre.id_protein,
        post.nei_list@.len() == pre.nei_list@.len(),
        post.adj(a as int) == pre.adj(a as int).remove(i),
        post.adj(b as int) == pre.adj(b as int).remove(j),
        forall|x: int|
            0 <= x < pre.nei_list@.len() && x != a && x != b ==> post.nei_list@[x]
                == pre.nei_list@[x],
    ensures
        post.wf(),
        !post.spec_has_edge(a, b) && !post.spec_has_edge(b, a),
        forall|x: usize, y: usize|
            !((x == a && y == b) || (x == b && y == a)) ==> (#[trigger] post.spec_has_edge(x, y))
                == pre.spec_has_edge(x, y),
        forall|x: usize, y: usize|
            !((x == a && y == b) || (x == b && y == a)) && pre.spec_has_edge(x, y) ==> (
            #[trigger] post.spec_weight(x, y)) == pre.spec_weight(x, y),
{
    lemma_key_at(pre.adj(a as int), b, i);
    lemma_key_at(pre.adj(b as int), a, j);
    // index mapping facts of Seq::remove
    assert forall|t: int| 0 <= t < post.adj(a as int).len() implies #[trigger] post.adj(a as int)[t]
        == (if t < i {
        pre.adj(a as int)[t]
    } else {
        pre.adj(a as int)[t + 1]
    }) by {}
    assert forall|t: int| 0 <= t < post.adj(b as int).len() implies #[trigger] post.adj(b as int)[t]
        == (if t < j {
        pre.adj(b as int)[t]
    } else {
        pre.adj(b as int)[t + 1]
    }) by {}
    assert(nodup_keys(post.adj(a as int)));
    assert(nodup_keys(post.adj(b as int)));
    assert(!has_key(post.adj(a as int), b)) by {
        if has_key(post.adj(a as int), b) {
            let t = choose|t: int|
                0 <= t < post.adj(a as int).len() && post.adj(a as int)[t].0 == b;
            if t < i {
                assert(pre.adj(a as int)[t].0 == b);
            } else {
                assert(pre.adj(a as int)[t + 1].0 == b);
            }
        }
    }
    assert(!has_key(post.adj(b as int), a)) by {
        if has_key(post.adj(b as int), a) {
            let t = choose|t: int|
                0 <= t < post.adj(b as int).len() && post.adj(b as int)[t].0 == a;
            if t < j {
                assert(pre.adj(b as int)[t].0 == a);
            } else {
                assert(pre.adj(b as int)[t + 1].0 == a);
            }
        }
    }
    assert forall|x: usize, y: usize|
        !((x == a && y == b) || (x == b && y == a)) implies (#[trigger] post.spec_has_edge(x, y))
        == pre.spec_has_edge(x, y) by {
        if (x as int) < pre.nei_list@.len() {
            if x == a {
                if has_key(post.adj(x as int), y) {
                    let t = choose|t: int|
                        0 <= t < post.adj(x as int).len() && post.adj(x as int)[t].0 == y;
                    if t < i {
                        assert(pre.adj(x as int)[t].0 == y);
                    } else {
                        assert(pre.adj(x as int)[t + 1].0 == y);
                    }
                } else if has_key(pre.adj(x as int), y) {
                    let t = choose|t: int|
                        0 <= t < pre.adj(x as int).len() && pre.adj(x as int)[t].0 == y;
                    assert(t != i);
                    if t < i {
                        assert(post.adj(x as int)[t].0 == y);
                    } else {
                        assert(post.adj(x as int)[t - 1].0 == y);
                    }
                }
            } else if x == b {
                if has_key(post.adj(x as int), y) {
                    let t = choose|t: int|
                        0 <= t < post.adj(x as int).len() && post.adj(x as int)[t].0 == y;
                    if t < j {
                        assert(pre.adj(x as int)[t].0 == y);
                    } else {
                        assert(pre.adj(x as int)[t + 1].0 == y);
                    }
                } else if has_key(pre.adj(x as int), y) {
                    let t = choose|t: int|
                        0 <= t < pre.adj(x as int).len() && pre.adj(x as int)[t].0 == y;
                    assert(t != j);
                    if t < j {
                        assert(post.adj(x as int)[t].0 == y);
                    } else {
                        assert(post.adj(x as int)[t - 1].0 == y);
                    }
                }
            } else {
                lemma_same_keys_has(pre.adj(x as int), post.adj(x as int), y);
            }
        }
    }
    assert forall|x: usize, y: usize|
        !((x == a && y == b) || (x == b && y == a)) && pre.spec_has_edge(x, y) implies (
    #[trigger] post.spec_weight(x, y)) == pre.spec_weight(x, y) by {
        let t = key_at(pre.adj(x as int), y);
        lemma_key_at(pre.adj(x as int), y, t);
        if x == a {
            assert(t != i);
            if t < i {
                lemma_key_at(post.adj(x as int), y, t);
            } else {
                lemma_key_at(post.adj(x as int), y, t - 1);
            }
        } else if x == b {
            assert(t != j);
            if t < j {
                lemma_key_at(post.adj(x as int), y, t);
            } else {
                lemma_key_at(post.adj(x as int), y, t - 1);
            }
        } else {
            lemma_key_at(post.adj(x as int), y, t);
        }
    }
    // degree sum shrank by exactly two, and the old count was at least one
    if a < b {
        lemma_deg_sum_lower2(pre.nei_list@, a as int, b as int, pre.node_count as int);
    } else {
        lemma_deg_sum_lower2(pre.nei_list@, b as int, a as int, pre.node_count as int);
    }
    let mid = pre.nei_list@.update(a as int, post.nei_list@[a as int]);
    lemma_deg_sum_update(pre.nei_list@, a as int, post.nei_list@[a as int], pre.node_count as int);
    lemma_deg_sum_update(mid, b as int, post.nei_list@[b as int], pre.node_count as int);
    lemma_deg_sum_same(mid.update(b as int, post.nei_list@[b as int]), post.nei_list@, pre.node_count as int);
}

/// All keys of `s`, as a set of integers.
pub open spec fn key_set(s: Seq<(usize, u64)>) -> Set<int> {
    keys_prefix(s, s.len() as int)
}

/// Key-set prefixes are finite even without unique keys.
pub proof fn lemma_keys_prefix_finite(s: Seq<(usize, u64)>, j: int)
    requires
        0 <= j <= s.len(),
    ensures
        keys_prefix(s, j).finite(),
    decreases j,
{
    if j == 0 {
        assert(keys_prefix(s, 0) =~= Set::<int>::empty());
    } else {
        lemma_keys_prefix_finite(s, j - 1);
        if keys_prefix(s, j - 1).contains(s[j - 1].0 as int) {
            assert(keys_prefix(s, j) =~= keys_prefix(s, j - 1));
        } else {
            assert(keys_prefix(s, j) =~= keys_prefix(s, j - 1).insert(s[j - 1].0 as int));
        }
    }
}

/// `has_key` agrees with membership in the key set.
pub proof fn lemma_key_set_has(s: Seq<(usize, u64)>, k: usize)
    ensures
        key_set(s).contains(k as int) == has_key(s, k),
{
    if has_key(s, k) {
        let t = choose|t: int| 0 <= t < s.len() && s[t].0 == k;
        assert(key_set(s).contains(k as int));
    }
    if key_set(s).contains(k as int) {
        let t = choose|t: int| 0 <= t < s.len() && s[t].0 == k as int;
        assert(s[t].0 == k);
        assert(has_key(s, k));
    }
}

/// Count the keys shared by two association lists.
fn count_common(s1: &Vec<(usize, u64)>, s2: &Vec<(usize, u64)>) -> (r: u64)
    requires
        nodup_keys(s1@),
        s1@.len() <= 0xFFFF_FFFF,
    ensures
        r == key_set(s1@).intersect(key_set(s2@)).len(),
        r <= s1@.len(),
{
    proof {
        assert(keys_prefix(s1@, 0).intersect(key_set(s2@)) =~= Set::<int>::empty());
    }
    let mut count: u64 = 0;
    let mut t: usize = 0;
    while t < s1.len()
        invariant
            t <= s1@.len(),
            s1@.len() <= 0xFFFF_FFFF,
            nodup_keys(s1@),
            count <= t,
            keys_prefix(s1@, t as int).intersect(key_set(s2@)).finite(),
            count == keys_prefix(s1@, t as int).intersect(key_set(s2@)).len(),
        decreases s1@.len() - t,
    {
        let ghost pre = keys_prefix(s1@, t as int).intersect(key_set(s2@));
        let k = s1[t].0;
        let hit = find_key(s2, k).is_some();
        proof {
            lemma_key_set_has(s2@, k);
            assert(!keys_prefix(s1@, t as int).contains(k as int));
            if hit {
                assert(keys_prefix(s1@, t + 1).intersect(key_set(s2@)) =~= pre.insert(k as int));
                axiom_set_insert_len(pre, k as int);
            } else {
                assert(keys_prefix(s1@, t + 1).intersect(key_set(s2@)) =~= pre);
            }
        }
        if hit {
            count += 1;
        }
        t += 1;
    }
    proof {
        assert(keys_prefix(s1@, s1@.len() as int) == key_set(s1@));
    }
    count
}

/// Count the keys present in at least one of two association lists.
fn count_union(s1: &Vec<(usize, u64)>, s2: &Vec<(usize, u64)>) -> (r: u64)
    requires
        nodup_keys(s1@),
        nodup_keys(s2@),
        s1@.len() <= 0xFFFF_FFFF,
        s2@.len() <= 0xFFFF_FFFF,
    ensures
        r == key_set(s1@).union(key_set(s2@)).len(),
        r <= s1@.len() + s2@.len(),
{
    proof {
        lemma_keys_prefix_card(s1@, s1@.len() as int);
        lemma_keys_prefix_finite(s1@, s1@.len() as int);
        assert(key_set(s1@).union(keys_prefix(s2@, 0)) =~= key_set(s1@));
    }
    let mut count: u64 = s1.len() as u64;
    let mut t: usize = 0;
    while t < s2.len()
        invariant
            t <= s2@.len(),
            s1@.len() <= 0xFFFF_FFFF,
            s2@.len() <= 0xFFFF_FFFF,
            nodup_keys(s1@),
            nodup_keys(s2@),
            count <= s1@.len() + t,
            key_set(s1@).union(keys_prefix(s2@, t as int)).finite(),
            count == key_set(s1@).union(keys_prefix(s2@, t as int)).len(),
        decreases s2@.len() - t,
    {
        let ghost pre = key_set(s1@).union(keys_prefix(s2@, t as int));
        let k = s2[t].0;
        let hit = find_key(s1, k).is_some();
        proof {
            lemma_key_set_has(s1@, k);
            assert(!keys_prefix(s2@, t as int).contains(k as int));
            if hit {
                assert(key_set(s1@).union(keys_prefix(s2@, t + 1)) =~= pre);
            } else {
                assert(key_set(s1@).union(keys_prefix(s2@, t + 1)) =~= pre.insert(k as int));
                axiom_set_insert_len(pre, k as int);
            }
        }
        if !hit {
            count += 1;
        }
        t += 1;
    }
    proof {
        assert(keys_prefix(s2@, s2@.len() as int) == key_set(s2@));
    }
    count
}

impl Graph {
    /// Jaccard index of the neighbour sets of `a` and `b`: the exact ratio
    /// |N(a) ∩ N(b)| / |N(a) ∪ N(b)|, and zero when both sets are empty.
    pub fn jaccard(&self, a: usize, b: usize) -> (r: Ratio)
        requires
            self.wf(),
            a < self.node_count,
            b < self.node_count,
        ensures
            ({
                let inter = key_set(self.adj(a as int)).intersect(
                    key_set(self.adj(b as int)),
                ).len();
                let uni = key_set(self.adj(a as int)).union(key_set(self.adj(b as int))).len();
                &&& (uni > 0 ==> r == (Ratio { num: inter as u128, den: uni as u128 }))
                &&& (uni == 0 ==> r == Ratio::spec_zero())
                &&& ratio_wf(r)
                &&& r.num <= r.den
            }),
    {
        proof {
            lemma_nodup_bounded_len(self.adj(a as int), self.node_count as int);
            lemma_nodup_bounded_len(self.adj(b as int), self.node_count as int);
        }
        let comsize = count_common(&self.nei_list[a], &self.nei_list[b]);
        let capsize = count_union(&self.nei_list[a], &self.nei_list[b]);
        proof {
            lemma_keys_prefix_finite(self.adj(a as int), self.adj(a as int).len() as int);
            lemma_keys_prefix_finite(self.adj(b as int), self.adj(b as int).len() as int);
            vstd::set_lib::lemma_len_subset(
                key_set(self.adj(a as int)).intersect(key_set(self.adj(b as int))),
                key_set(self.adj(a as int)).union(key_set(self.adj(b as int))),
            );
            assert(comsize == key_set(self.adj(a as int)).intersect(
                key_set(self.adj(b as int)),
            ).len());
            assert(capsize == key_set(self.adj(a as int)).union(
                key_set(self.adj(b as int)),
            ).len());
            assert(comsize <= capsize);
        }
        let r = Ratio::new(comsize as u128, capsize as u128);
        proof {
            assert(capsize > 0 ==> r.num == comsize && r.den == capsize);
            assert(capsize == 0 ==> r.num == 0 && r.den == 1);
            assert(r.num <= r.den);
        }
        r
    }

    /// Jaccard index of the neighbour sets with each endpoint added to its
    /// own set.  The union holds at least the endpoint `a`, so it is never
    /// empty and the ratio is always the exact quotient.
    pub fn jaccard_plus(&self, a: usize, b: usize) -> (r: Ratio)
        requires
            self.wf(),
            a < self.node_count,
            b < self.node_count,
        ensures
            ({
                let sa = key_set(self.adj(a as int)).insert(a as int);
                let sb = key_set(self.adj(b as int)).insert(b as int);
                let inter = sa.intersect(sb).len();
                let uni = sa.union(sb).len();
                &&& uni > 0
                &&& r == (Ratio { num: inter as u128, den: uni as u128 })
                &&& ratio_wf(r)
                &&& r.num <= r.den
            }),
    {
        proof {
            lemma_nodup_bounded_len(self.adj(a as int), self.node_count as int);
            lemma_nodup_bounded_len(self.adj(b as int), self.node_count as int);
        }
        let mut sa = copy_row(&self.nei_list[a]);
        let mut sb = copy_row(&self.nei_list[b]);
        sa.push((a, 0));
        sb.push((b, 0));
        proof {
            assert(key_set(sa@) =~= key_set(self.adj(a as int)).insert(a as int)) by {
                lemma_keys_push(self.adj(a as int), a);
            }
            assert(key_set(sb@) =~= key_set(self.adj(b as int)).insert(b as int)) by {
                lemma_keys_push(self.adj(b as int), b);
            }
            assert(nodup_keys(sa@)) by {
                lemma_nodup_push(self.adj(a as int), a, 0);
            }
            assert(nodup_keys(sb@)) by {
                lemma_nodup_push(self.adj(b as int), b, 0);
            }
        }
        let comsize = count_common(&sa, &sb);
        let capsize = count_union(&sa, &sb);
        proof {
            lemma_keys_prefix_finite(sa@, sa@.len() as int);
            lemma_keys_prefix_finite(sb@, sb@.len() as int);
            vstd::set_lib::lemma_len_subset(
                key_set(sa@).intersect(key_set(sb@)),
                key_set(sa@).union(key_set(sb@)),
            );
            let uni_set = key_set(sa@).union(key_set(sb@));
            assert(uni_set.contains(a as int));
            assert(uni_set.len() > 0) by {
                if uni_set.len() == 0 {
                    assert(uni_set =~= Set::<int>::empty());
                }
            }
        }
        Ratio::new(comsize as u128, capsize as u128)
    }
}

/// The largest node index mentioned in an edge list (-1 when empty).
pub open spec fn list_max_node(es: Seq<(usize, usize, u64)>) -> int
    decreases es.len(),
{
    if es.len() == 0 {
        -1
    } else {
        let m = list_max_node(es.drop_last());
        let l = es.last();
        let c = if l.0 >= l.1 {
            l.0 as int
        } else {
            l.1 as int
        };
        if c >= m {
            c
        } else {
            m
        }
    }
}

/// Whether the edge list mentions the undirected pair `x – y`.
pub open spec fn list_has_edge(es: Seq<(usize, usize, u64)>, x: usize, y: usize) -> bool {
    exists|k: int|
        0 <= k < es.len() && (((#[trigger] es[k]).0 == x && es[k].1 == y) || (es[k].0 == y
            && es[k].1 == x))
}

/// The weight the pair `x – y` ends up with: the last mention wins.
pub open spec fn list_weight(es: Seq<(usize, usize, u64)>, x: usize, y: usize) -> u64
    decreases es.len(),
{
    if es.len() == 0 {
        0
    } else {
        let l = es.last();
        if (l.0 == x && l.1 == y) || (l.0 == y && l.1 == x) {
            l.2
        } else {
            list_weight(es.drop_last(), x, y)
        }
    }
}

/// One step of reading an edge list: what `take(k + 1)` says against `take(k)`.
pub proof fn lemma_list_step(es: Seq<(usize, usize, u64)>, k: int, x: usize, y: usize)
    requires
        0 <= k < es.len(),
    ensures
        list_has_edge(es.take(k + 1), x, y) == (list_has_edge(es.take(k), x, y) || ((es[k].0 == x
            && es[k].1 == y) || (es[k].0 == y && es[k].1 == x))),
        ((es[k].0 == x && es[k].1 == y) || (es[k].0 == y && es[k].1 == x)) ==> list_weight(
            es.take(k + 1),
            x,
            y,
        ) == es[k].2,
        !((es[k].0 == x && es[k].1 == y) || (es[k].0 == y && es[k].1 == x)) ==> list_weight(
            es.take(k + 1),
            x,
            y,
        ) == list_weight(es.take(k), x, y),
{
    let s1 = es.take(k + 1);
    assert(s1.drop_last() =~= es.take(k));
    assert(s1.last() == es[k]);
    if list_has_edge(es.take(k), x, y) {
        let t = choose|t: int|
            0 <= t < es.take(k).len() && (((#[trigger] es.take(k)[t]).0 == x && es.take(k)[t].1
                == y) || (es.take(k)[t].0 == y && es.take(k)[t].1 == x));
        assert(s1[t] == es.take(k)[t]);
        assert(list_has_edge(s1, x, y));
    }
    if list_has_edge(s1, x, y) {
        let t = choose|t: int|
            0 <= t < s1.len() && (((#[trigger] s1[t]).0 == x && s1[t].1 == y) || (s1[t].0 == y
                && s1[t].1 == x));
        if t < k {
            assert(es.take(k)[t] == s1[t]);
            assert(list_has_edge(es.take(k), x, y));
        }
    }
}

/// The maximum over `take(k + 1)` against `take(k)`.
pub proof fn lemma_list_max_step(es: Seq<(usize, usize, u64)>, k: int)
    requires
        0 <= k < es.len(),
    ensures
        list_max_node(es.take(k + 1)) == ({
            let m = list_max_node(es.take(k));
            let c = if es[k].0 >= es[k].1 {
                es[k].0 as int
            } else {
                es[k].1 as int
            };
            if c >= m {
                c
            } else {
                m
            }
        }),
{
    let s1 = es.take(k + 1);
    assert(s1.drop_last() =~= es.take(k));
    assert(s1.last() == es[k]);
}

impl Graph {
    /// Build a graph from a non-empty list of weighted index edges.  The
    /// node count is one past the largest mentioned index; when a pair is
    /// mentioned more than once, its last weight wins.
    pub fn new_from(edges: Vec<(usize, usize, u64)>) -> (g: Graph)
        requires
            edges@.len() > 0,
            forall|k: int|
                0 <= k < edges@.len() ==> (#[trigger] edges@[k]).0 < MAX_NODE_COUNT
                    && edges@[k].1 < MAX_NODE_COUNT && edges@[k].0 != edges@[k].1 && edges@[k].2
                    <= MAX_EDGE_WEIGHT,
        ensures
            g.wf(),
            g.node_count == list_max_node(edges@) + 1,
            g.id_protein@.len() == 0,
            forall|x: usize, y: usize|
                #[trigger] g.spec_has_edge(x, y) == (list_has_edge(edges@, x, y) && x
                    < g.node_count && y < g.node_count),
            forall|x: usize, y: usize|
                #[trigger] g.spec_has_edge(x, y) ==> g.spec_weight(x, y) == list_weight(
                    edges@,
                    x,
                    y,
                ),
    {
        // find the largest mentioned index
        let mut max: usize = 0;
        let mut k: usize = 0;
        proof {
            assert(edges@.take(0) =~= Seq::<(usize, usize, u64)>::empty());
        }
        while k < edges.len()
            invariant
                k <= edges@.len(),
                forall|t: int|
                    0 <= t < edges@.len() ==> (#[trigger] edges@[t]).0 < MAX_NODE_COUNT
                        && edges@[t].1 < MAX_NODE_COUNT,
                k == 0 ==> max == 0,
                k > 0 ==> max == list_max_node(edges@.take(k as int)),
                max < MAX_NODE_COUNT,
            decreases edges@.len() - k,
        {
            let (a, b, _) = edges[k];
            let c = if a >= b {
                a
            } else {
                b
            };
            proof {
                lemma_list_max_step(edges@, k as int);
                if k == 0 {
                    assert(list_max_node(edges@.take(0)) == -1);
                }
            }
            if c > max || k == 0 {
                max = c;
            }
            k += 1;
        }
        proof {
            assert(edges@.take(edges@.len() as int) =~= edges@);
        }
        let mut g = Graph::new(max + 1);
        let mut k: usize = 0;
        proof {
            assert(edges@.take(0) =~= Seq::<(usize, usize, u64)>::empty());
            assert forall|t: int| 0 <= t < edges@.len() implies (#[trigger] edges@[t]).0
                < g.node_count && edges@[t].1 < g.node_count by {
                lemma_list_max_ge(edges@, t);
            }
        }
        while k < edges.len()
            invariant
                k <= edges@.len(),
                g.wf(),
                g.node_count == list_max_node(edges@) + 1,
                g.id_protein@.len() == 0,
                forall|t: int|
                    0 <= t < edges@.len() ==> (#[trigger] edges@[t]).0 < g.node_count
                        && edges@[t].1 < g.node_count && edges@[t].0 != edges@[t].1
                        && edges@[t].2 <= MAX_EDGE_WEIGHT,
                forall|x: usize, y: usize|
                    #[trigger] g.spec_has_edge(x, y) == (list_has_edge(edges@.take(k as int), x, y)
                        && x < g.node_count && y < g.node_count),
                forall|x: usize, y: usize|
                    #[trigger] g.spec_has_edge(x, y) ==> g.spec_weight(x, y) == list_weight(
                        edges@.take(k as int),
                        x,
                        y,
                    ),
            decreases edges@.len() - k,
        {
            let (a, b, w) = edges[k];
            let ghost pre = g;
            g.add_edge(a, b, w);
            proof {
                assert forall|x: usize, y: usize| true implies #[trigger] g.spec_has_edge(x, y)
                    == (list_has_edge(edges@.take(k + 1), x, y) && x < g.node_count && y
                    < g.node_count) by {
                    lemma_list_step(edges@, k as int, x, y);
                }
                assert forall|x: usize, y: usize| #[trigger] g.spec_has_edge(x, y) implies
                    g.spec_weight(x, y) == list_weight(edges@.take(k + 1), x, y) by {
                    lemma_list_step(edges@, k as int, x, y);
                }
            }
            k += 1;
        }
        proof {
            assert(edges@.take(edges@.len() as int) =~= edges@);
        }
        g
    }
}

/// Every index mentioned in an edge list is at most the list maximum.
pub proof fn lemma_list_max_ge(es: Seq<(usize, usize, u64)>, t: int)
    requires
        0 <= t < es.len(),
    ensures
        es[t].0 <= list_max_node(es),
        es[t].1 <= list_max_node(es),
    decreases es.len(),
{
    if t == es.len() - 1 {
        assert(es.last() == es[t]);
    } else {
        lemma_list_max_ge(es.drop_last(), t);
        assert(es.drop_last()[t] == es[t]);
    }
}

/// The views of a sequence of labels, as sequences of characters.
pub open spec fn label_views(ss: Seq<String>) -> Seq<Seq<char>> {
    ss.map_values(|s: String| s@)
}

/// Whether `ls` holds the label `l`.
pub open spec fn has_label(ls: Seq<Seq<char>>, l: Seq<char>) -> bool {
    exists|t: int| 0 <= t < ls.len() && ls[t] == l
}

/// The position of label `l` in `ls` (meaningful when present and unique).
pub open spec fn label_at(ls: Seq<Seq<char>>, l: Seq<char>) -> int {
    choose|t: int| 0 <= t < ls.len() && ls[t] == l
}

/// With distinct labels, the position of a present label is the position
/// found.
pub proof fn lemma_label_at(ls: Seq<Seq<char>>, l: Seq<char>, t: int)
    requires
        ls.no_duplicates(),
        0 <= t < ls.len(),
        ls[t] == l,
    ensures
        label_at(ls, l) == t,
        has_label(ls, l),
{
    assert(has_label(ls, l));
    let t2 = label_at(ls, l);
    assert(0 <= t2 < ls.len() && ls[t2] == l);
}

/// `ls` extended by `l` if it is not yet present.
pub open spec fn insert_label(ls: Seq<Seq<char>>, l: Seq<char>) -> Seq<Seq<char>> {
    if has_label(ls, l) {
        ls
    } else {
        ls.push(l)
    }
}

/// The distinct labels of the first `k` edges, in order of first sight.
pub open spec fn labels_of(es: Seq<(String, String, u64)>, k: int) -> Seq<Seq<char>>
    decreases k,
{
    if k <= 0 {
        Seq::empty()
    } else {
        insert_label(insert_label(labels_of(es, k - 1), es[k - 1].0@), es[k - 1].1@)
    }
}

/// Whether the edge list mentions the undirected label pair `la – lb`.
pub open spec fn named_has_edge(es: Seq<(String, String, u64)>, la: Seq<char>, lb: Seq<char>) -> bool {
    exists|k: int|
        0 <= k < es.len() && (((#[trigger] es[k]).0@ == la && es[k].1@ == lb) || (es[k].0@ == lb
            && es[k].1@ == la))
}

/// The weight the label pair `la – lb` ends up with: the last mention wins.
pub open spec fn named_weight(es: Seq<(String, String, u64)>, la: Seq<char>, lb: Seq<char>) -> u64
    decreases es.len(),
{
    if es.len() == 0 {
        0
    } else {
        let l = es.last();
        if (l.0@ == la && l.1@ == lb) || (l.0@ == lb && l.1@ == la) {
            l.2
        } else {
            named_weight(es.drop_last(), la, lb)
        }
    }
}

/// Inserting labels never removes one.
pub proof fn lemma_insert_label_keeps(ls: Seq<Seq<char>>, l: Seq<char>, l2: Seq<char>)
    requires
        has_label(ls, l2),
    ensures
        has_label(insert_label(ls, l), l2),
{
    let t = choose|t: int| 0 <= t < ls.len() && ls[t] == l2;
    assert(insert_label(ls, l)[t] == l2);
}

/// Both labels of every edge are among the labels of the list.
pub proof fn lemma_labels_of_contains(es: Seq<(String, String, u64)>, k: int, t: int)
    requires
        0 <= t < k <= es.len(),
    ensures
        has_label(labels_of(es, k), es[t].0@),
        has_label(labels_of(es, k), es[t].1@),
    decreases k,
{
    let prev = labels_of(es, k - 1);
    if t == k - 1 {
        let mid = insert_label(prev, es[t].0@);
        if has_label(prev, es[t].0@) {
            lemma_insert_label_keeps(prev, es[t].0@, es[t].0@);
        } else {
            assert(mid[prev.len() as int] == es[t].0@);
        }
        lemma_insert_label_keeps(mid, es[t].1@, es[t].0@);
        if has_label(mid, es[t].1@) {
        } else {
            assert(insert_label(mid, es[t].1@)[mid.len() as int] == es[t].1@);
        }
    } else {
        lemma_labels_of_contains(es, k - 1, t);
        lemma_insert_label_keeps(prev, es[k - 1].0@, es[t].0@);
        lemma_insert_label_keeps(prev, es[k - 1].0@, es[t].1@);
        lemma_insert_label_keeps(insert_label(prev, es[k - 1].0@), es[k - 1].1@, es[t].0@);
        lemma_insert_label_keeps(insert_label(prev, es[k - 1].0@), es[k - 1].1@, es[t].1@);
    }
}

/// Look up a protein label among the graph labels.
pub fn find_label(labels: &Vec<String>, l: &String) -> (r: Option<usize>)
    ensures
        r is Some <==> has_label(label_views(labels@), l@),
        r is Some ==> (r->Some_0 as int) < labels@.len() && labels@[r->Some_0 as int]@ == l@,
{
    let mut j: usize = 0;
    while j < labels.len()
        invariant
            j <= labels@.len(),
            forall|t: int| 0 <= t < j ==> labels@[t]@ != l@,
        decreases labels@.len() - j,
    {
        if labels[j] == *l {
            proof {
                assert(label_views(labels@)[j as int] == l@);
            }
            return Some(j);
        }
        j += 1;
    }
    proof {
        if has_label(label_views(labels@), l@) {
            let t = choose|t: int|
                0 <= t < label_views(labels@).len() && label_views(labels@)[t] == l@;
            assert(labels@[t]@ == l@);
        }
    }
    None
}

/// An element-for-element copy of an association list.
fn copy_row(s: &Vec<(usize, u64)>) -> (r: Vec<(usize, u64)>)
    ensures
        r@ == s@,
{
    let mut r: Vec<(usize, u64)> = Vec::new();
    let mut j: usize = 0;
    while j < s.len()
        invariant
            j <= s@.len(),
            r@ == s@.take(j as int),
        decreases s@.len() - j,
    {
        r.push(s[j]);
        proof {
            assert(s@.take(j as int).push(s@[j as int]) =~= s@.take(j + 1));
        }
        j += 1;
    }
    proof {
        assert(s@.take(s@.len() as int) =~= s@);
    }
    r
}

/// One step of reading a named edge list.
pub proof fn lemma_named_step(es: Seq<(String, String, u64)>, k: int, la: Seq<char>, lb: Seq<char>)
    requires
        0 <= k < es.len(),
    ensures
        named_has_edge(es.take(k + 1), la, lb) == (named_has_edge(es.take(k), la, lb) || ((
        es[k].0@ == la && es[k].1@ == lb) || (es[k].0@ == lb && es[k].1@ == la))),
        ((es[k].0@ == la && es[k].1@ == lb) || (es[k].0@ == lb && es[k].1@ == la))
            ==> named_weight(es.take(k + 1), la, lb) == es[k].2,
        !((es[k].0@ == la && es[k].1@ == lb) || (es[k].0@ == lb && es[k].1@ == la))
            ==> named_weight(es.take(k + 1), la, lb) == named_weight(es.take(k), la, lb),
{
    let s1 = es.take(k + 1);
    assert(s1.drop_last() =~= es.take(k));
    assert(s1.last() == es[k]);
    if named_has_edge(es.take(k), la, lb) {
        let t = choose|t: int|
            0 <= t < es.take(k).len() && (((#[trigger] es.take(k)[t]).0@ == la && es.take(
                k,
            )[t].1@ == lb) || (es.take(k)[t].0@ == lb && es.take(k)[t].1@ == la));
        assert(s1[t] == es.take(k)[t]);
        assert(named_has_edge(s1, la, lb));
    }
    if named_has_edge(s1, la, lb) {
        let t = choose|t: int|
            0 <= t < s1.len() && (((#[trigger] s1[t]).0@ == la && s1[t].1@ == lb) || (s1[t].0@
                == lb && s1[t].1@ == la));
        if t < k {
            assert(es.take(k)[t] == s1[t]);
            assert(named_has_edge(es.take(k), la, lb));
        }
    }
}

/// Appending a fresh label keeps labels distinct.
pub proof fn lemma_push_label_nodup(ls: Seq<Seq<char>>, l: Seq<char>)
    requires
        ls.no_duplicates(),
        !has_label(ls, l),
    ensures
        ls.push(l).no_duplicates(),
{
    let s2 = ls.push(l);
    assert forall|i: int, j: int| 0 <= i < j < s2.len() implies s2[i] != s2[j] by {
        if j == ls.len() {
            if s2[i] == l {
                assert(ls[i] == l);
                assert(has_label(ls, l));
            }
        } else {
            assert(ls[i] != ls[j]);
        }
    }
}

/// Two graphs with the same node count, edge count and adjacency agree on
/// well-formedness, edges and weights, whatever their labels.
pub proof fn lemma_same_structure(g1: Graph, g2: Graph)
    requires
        g1.wf(),
        g2.node_count == g1.node_count,
        g2.edge_count == g1.edge_count,
        g2.nei_list == g1.nei_list,
    ensures
        g2.wf(),
        forall|x: usize, y: usize|
            #[trigger] g2.spec_has_edge(x, y) == g1.spec_has_edge(x, y),
        forall|x: usize, y: usize|
            #[trigger] g2.spec_weight(x, y) == g1.spec_weight(x, y),
{
    assert forall|x: usize, y: usize| #[trigger] g2.spec_has_edge(x, y) == g1.spec_has_edge(
        x,
        y,
    ) by {}
    assert forall|x: usize, y: usize| #[trigger] g2.spec_weight(x, y) == g1.spec_weight(
        x,
        y,
    ) by {}
    assert forall|a: usize, b: usize| #[trigger] g2.spec_has_edge(a, b) implies g2.spec_has_edge(
        b,
        a,
    ) && g2.spec_weight(b, a) == g2.spec_weight(a, b) by {
        assert(g1.spec_has_edge(a, b));
    }
}

/// What `new_from_named_edges` promises of the graph it builds: proteins
/// indexed in order of first sight, exactly the named edges, last weight
/// winning for a pair named twice.
pub open spec fn named_graph_ok(g: Graph, es: Seq<(String, String, u64)>) -> bool {
    let ls = labels_of(es, es.len() as int);
    &&& g.wf()
    &&& g.labeled()
    &&& label_views(g.id_protein@) == ls
    &&& g.node_count == ls.len()
    &&& (forall|x: usize, y: usize|
        #[trigger] g.spec_has_edge(x, y) == (x < g.node_count && y < g.node_count
            && named_has_edge(es, ls[x as int], ls[y as int])))
    &&& (forall|x: usize, y: usize|
        #[trigger] g.spec_has_edge(x, y) ==> g.spec_weight(x, y) == named_weight(
            es,
            ls[x as int],
            ls[y as int],
        ))
}

impl Graph {
    /// Build a labelled graph from protein-name edges.  Proteins are given
    /// indices in order of first sight; when a pair is named more than once,
    /// its last weight wins.  Returns `None` when the list names more
    /// distinct proteins than `MAX_NODE_COUNT`.
    pub fn new_from_named_edges(edges: &Vec<(String, String, u64)>) -> (r: Option<Graph>)
        requires
            edges@.len() > 0,
            forall|k: int|
                0 <= k < edges@.len() ==> (#[trigger] edges@[k]).0@ != edges@[k].1@
                    && edges@[k].2 <= MAX_EDGE_WEIGHT,
        ensures
            r is Some <==> labels_of(edges@, edges@.len() as int).len() <= MAX_NODE_COUNT,
            r is Some ==> named_graph_ok(r->Some_0, edges@),
    {
        let ghost ls = labels_of(edges@, edges@.len() as int);
        // assign an index to each protein at first sight
        let mut labels: Vec<String> = Vec::new();
        let mut k: usize = 0;
        proof {
            assert(label_views(labels@) =~= labels_of(edges@, 0));
        }
        while k < edges.len()
            invariant
                k <= edges@.len(),
                label_views(labels@) == labels_of(edges@, k as int),
                label_views(labels@).no_duplicates(),
            decreases edges@.len() - k,
        {
            let e = &edges[k];
            let ghost pre = labels@;
            match find_label(&labels, &e.0) {
                Some(_) => {},
                None => {
                    labels.push(e.0.clone());
                    proof {
                        assert(label_views(labels@) =~= label_views(pre).push(e.0@));
                        lemma_push_label_nodup(label_views(pre), e.0@);
                    }
                },
            }
            let ghost mid = labels@;
            proof {
                assert(label_views(mid) == insert_label(label_views(pre), e.0@));
            }
            match find_label(&labels, &e.1) {
                Some(_) => {},
                None => {
                    labels.push(e.1.clone());
                    proof {
                        assert(label_views(labels@) =~= label_views(mid).push(e.1@));
                        lemma_push_label_nodup(label_views(mid), e.1@);
                    }
                },
            }
            proof {
                assert(label_views(labels@) == insert_label(label_views(mid), e.1@));
                assert(label_views(labels@) == labels_of(edges@, k + 1));
            }
            k += 1;
        }
        if labels.len() > MAX_NODE_COUNT {
            return None;
        }
        let n = labels.len();
        let mut g = Graph::new(n);
        let ghost g0 = g;
        g.id_protein = labels;
        proof {
            lemma_same_structure(g0, g);
            assert(label_views(g.id_protein@) == ls);
            assert(edges@.take(0) =~= Seq::<(String, String, u64)>::empty());
        }
        let mut k: usize = 0;
        while k < edges.len()
            invariant
                k <= edges@.len(),
                g.wf(),
                g.labeled(),
                g.node_count == n,
                n == ls.len(),
                n <= MAX_NODE_COUNT,
                label_views(g.id_protein@) == ls,
                ls.no_duplicates(),
                ls == labels_of(edges@, edges@.len() as int),
                forall|t: int|
                    0 <= t < edges@.len() ==> (#[trigger] edges@[t]).0@ != edges@[t].1@
                        && edges@[t].2 <= MAX_EDGE_WEIGHT,
                forall|x: usize, y: usize|
                    #[trigger] g.spec_has_edge(x, y) == (x < g.node_count && y < g.node_count
                        && named_has_edge(edges@.take(k as int), ls[x as int], ls[y as int])),
                forall|x: usize, y: usize|
                    #[trigger] g.spec_has_edge(x, y) ==> g.spec_weight(x, y) == named_weight(
                        edges@.take(k as int),
                        ls[x as int],
                        ls[y as int],
                    ),
            decreases edges@.len() - k,
        {
            let e = &edges[k];
            proof {
                lemma_labels_of_contains(edges@, edges@.len() as int, k as int);
            }
            let pi = match find_label(&g.id_protein, &e.0) {
                Some(p) => p,
                None => {
                    proof {
                        assert(false);
                    }
                    0
                },
            };
            let pj = match find_label(&g.id_protein, &e.1) {
                Some(p) => p,
                None => {
                    proof {
                        assert(false);
                    }
                    0
                },
            };
            proof {
                assert(ls[pi as int] == edges@[k as int].0@);
                assert(ls[pj as int] == edges@[k as int].1@);
            }
            g.add_edge(pi, pj, e.2);
            proof {
                assert forall|x: usize, y: usize| true implies #[trigger] g.spec_has_edge(x, y)
                    == (x < g.node_count && y < g.node_count && named_has_edge(
                    edges@.take(k + 1),
                    ls[x as int],
                    ls[y as int],
                )) by {
                    lemma_named_step(edges@, k as int, ls[x as int], ls[y as int]);
                    if x < n && y < n {
                        if ls[x as int] == edges@[k as int].0@ {
                            assert(x == pi);
                        }
                        if ls[x as int] == edges@[k as int].1@ {
                            assert(x == pj);
                        }
                        if ls[y as int] == edges@[k as int].0@ {
                            assert(y == pi);
                        }
                        if ls[y as int] == edges@[k as int].1@ {
                            assert(y == pj);
                        }
                    }
                }
                assert forall|x: usize, y: usize| #[trigger] g.spec_has_edge(x, y) implies
                    g.spec_weight(x, y) == named_weight(
                    edges@.take(k + 1),
                    ls[x as int],
                    ls[y as int],
                ) by {
                    lemma_named_step(edges@, k as int, ls[x as int], ls[y as int]);
                    if ls[x as int] == edges@[k as int].0@ {
                        assert(x == pi);
                    }
                    if ls[x as int] == edges@[k as int].1@ {
                        assert(x == pj);
                    }
                    if ls[y as int] == edges@[k as int].0@ {
                        assert(y == pi);
                    }
                    if ls[y as int] == edges@[k as int].1@ {
                        assert(y == pj);
                    }
                }
            }
            k += 1;
        }
        proof {
            assert(edges@.take(edges@.len() as int) =~= edges@);
        }
        Some(g)
    }

    /// The subgraph induced by the given protein labels: retained nodes are
    /// renumbered in the order of `nodes`, and exactly the induced edges of
    /// the parent are kept, weights unchanged.
    pub fn subgraph(&self, nodes: &Vec<String>) -> (g: Graph)
        requires
            self.wf(),
            self.labeled(),
            label_views(nodes@).no_duplicates(),
            nodes@.len() <= MAX_NODE_COUNT,
        ensures
            g.wf(),
            g.labeled(),
            g.node_count == nodes@.len(),
            label_views(g.id_protein@) == label_views(nodes@),
            forall|x: usize, y: usize|
                #[trigger] g.spec_has_edge(x, y) == (x < nodes@.len() && y < nodes@.len()
                    && has_label(label_views(self.id_protein@), nodes@[x as int]@) && has_label(
                    label_views(self.id_protein@),
                    nodes@[y as int]@,
                ) && self.spec_has_edge(
                    label_at(label_views(self.id_protein@), nodes@[x as int]@) as usize,
                    label_at(label_views(self.id_protein@), nodes@[y as int]@) as usize,
                )),
            forall|x: usize, y: usize|
                #[trigger] g.spec_has_edge(x, y) ==> g.spec_weight(x, y) == self.spec_weight(
                    label_at(label_views(self.id_protein@), nodes@[x as int]@) as usize,
                    label_at(label_views(self.id_protein@), nodes@[y as int]@) as usize,
                ),
    {
        let ghost pl = label_views(self.id_protein@);
        let n = nodes.len();
        let mut g = Graph::new(n);
        let mut lab: Vec<String> = Vec::new();
        let mut t: usize = 0;
        while t < n
            invariant
                t <= n,
                n == nodes@.len(),
                lab@.len() == t,
                forall|u: int| 0 <= u < t ==> (#[trigger] lab@[u])@ == nodes@[u]@,
            decreases n - t,
        {
            lab.push(nodes[t].clone());
            t += 1;
        }
        let ghost g0 = g;
        g.id_protein = lab;
        proof {
            lemma_same_structure(g0, g);
            assert(label_views(g.id_protein@) =~= label_views(nodes@));
        }
        // visit every unordered pair once
        let mut i: usize = 0;
        while i < n
            invariant
                i <= n,
                n == nodes@.len(),
                n <= MAX_NODE_COUNT,
                self.wf(),
                self.labeled(),
                g.wf(),
                g.labeled(),
                g.node_count == n,
                label_views(g.id_protein@) == label_views(nodes@),
                label_views(nodes@).no_duplicates(),
                pl == label_views(self.id_protein@),
                forall|x: usize, y: usize|
                    #[trigger] g.spec_has_edge(x, y) == (x < n && y < n && subgraph_pair_done(
                        x,
                        y,
                        i as int,
                        i as int + 1,
                    ) && subgraph_induced(*self, nodes@, x, y)),
                forall|x: usize, y: usize|
                    #[trigger] g.spec_has_edge(x, y) ==> g.spec_weight(x, y) == self.spec_weight(
                        label_at(pl, nodes@[x as int]@) as usize,
                        label_at(pl, nodes@[y as int]@) as usize,
                    ),
            decreases n - i,
        {
            let mut j: usize = i + 1;
            while j < n
                invariant
                    i < n,
                    i + 1 <= j <= n,
                    n == nodes@.len(),
                    n <= MAX_NODE_COUNT,
                    self.wf(),
                    self.labeled(),
                    g.wf(),
                    g.labeled(),
                    g.node_count == n,
                    label_views(g.id_protein@) == label_views(nodes@),
                    label_views(nodes@).no_duplicates(),
                    pl == label_views(self.id_protein@),
                    forall|x: usize, y: usize|
                        #[trigger] g.spec_has_edge(x, y) == (x < n && y < n && subgraph_pair_done(
                            x,
                            y,
                            i as int,
                            j as int,
                        ) && subgraph_induced(*self, nodes@, x, y)),
                    forall|x: usize, y: usize|
                        #[trigger] g.spec_has_edge(x, y) ==> g.spec_weight(x, y)
                            == self.spec_weight(
                            label_at(pl, nodes@[x as int]@) as usize,
                            label_at(pl, nodes@[y as int]@) as usize,
                        ),
                decreases n - j,
            {
                let pi = find_label(&self.id_protein, &nodes[i]);
                let pj = find_label(&self.id_protein, &nodes[j]);
                match (pi, pj) {
                    (Some(pi), Some(pj)) => {
                        proof {
                            lemma_label_at(pl, nodes@[i as int]@, pi as int);
                            lemma_label_at(pl, nodes@[j as int]@, pj as int);
                        }
                        match self.edge_weight(pi, pj) {
                            Some(w) => {
                                proof {
                                    let t = key_at(self.adj(pi as int), pj);
                                    assert(self.adj(pi as int)[t].1 <= MAX_EDGE_WEIGHT);
                                    assert(pi != pj) by {
                                        assert(self.adj(pi as int)[t].0 == pj);
                                        assert((self.adj(pi as int)[t].0 as int) != pi as int);
                                    }
                                    assert(i != j);
                                }
                                g.add_edge(i, j, w);
                            },
                            None => {},
                        }
                    },
                    _ => {},
                }
                proof {
                    assert forall|x: usize, y: usize| true implies #[trigger] g.spec_has_edge(
                        x,
                        y,
                    ) == (x < n && y < n && subgraph_pair_done(x, y, i as int, j as int + 1)
                        && subgraph_induced(*self, nodes@, x, y)) by {}
                }
                j += 1;
            }
            proof {
                assert forall|x: usize, y: usize| true implies #[trigger] g.spec_has_edge(x, y)
                    == (x < n && y < n && subgraph_pair_done(x, y, i as int + 1, i as int + 2)
                    && subgraph_induced(*self, nodes@, x, y)) by {}
            }
            i += 1;
        }
        proof {
            assert forall|x: usize, y: usize| true implies #[trigger] g.spec_has_edge(x, y) == (x
                < nodes@.len() && y < nodes@.len() && has_label(pl, nodes@[x as int]@)
                && has_label(pl, nodes@[y as int]@) && self.spec_has_edge(
                label_at(pl, nodes@[x as int]@) as usize,
                label_at(pl, nodes@[y as int]@) as usize,
            )) by {}
        }
        g
    }
}

/// Whether the unordered pair `x – y` has been visited once the outer loop
/// is at `i` and the inner at `j`.
pub open spec fn subgraph_pair_done(x: usize, y: usize, i: int, j: int) -> bool {
    let lo = if x <= y {
        x as int
    } else {
        y as int
    };
    let hi = if x <= y {
        y as int
    } else {
        x as int
    };
    lo < hi && (lo < i || (lo == i && hi < j))
}

/// Whether the parent graph has an edge between the parent nodes labelled
/// like `nodes[x]` and `nodes[y]`.
pub open spec fn subgraph_induced(parent: Graph, nodes: Seq<String>, x: usize, y: usize) -> bool {
    let pl = label_views(parent.id_protein@);
    &&& has_label(pl, nodes[x as int]@)
    &&& has_label(pl, nodes[y as int]@)
    &&& parent.spec_has_edge(
        label_at(pl, nodes[x as int]@) as usize,
        label_at(pl, nodes[y as int]@) as usize,
    )
}

/// Pushing an entry extends the key set by its key.
pub proof fn lemma_keys_push(s: Seq<(usize, u64)>, k: usize)
    ensures
        forall|w: u64| key_set(s.push((k, w))) =~= key_set(s).insert(k as int),
{
    assert forall|w: u64| key_set(s.push((k, w))) =~= key_set(s).insert(k as int) by {
        let s2 = s.push((k, w));
        assert forall|x: int| key_set(s2).contains(x) implies key_set(s).insert(
            k as int,
        ).contains(x) by {
            let t = choose|t: int| 0 <= t < s2.len() && s2[t].0 == x;
            if t < s.len() {
                assert(s[t].0 == x);
            }
        }
        assert forall|x: int| key_set(s).insert(k as int).contains(x) implies key_set(
            s2,
        ).contains(x) by {
            if key_set(s).contains(x) {
                let t = choose|t: int| 0 <= t < s.len() && s[t].0 == x;
                assert(s2[t].0 == x);
            } else {
                assert(s2[s.len() as int].0 == x);
            }
        }
    }
}

/// Pushing a fresh key keeps keys unique.
pub proof fn lemma_nodup_push(s: Seq<(usize, u64)>, k: usize, w: u64)
    requires
        nodup_keys(s),
        !has_key(s, k),
    ensures
        nodup_keys(s.push((k, w))),
{
    let s2 = s.push((k, w));
    assert forall|j: int, t: int| 0 <= j < t < s2.len() implies (#[trigger] s2[j]).0 != (
    #[trigger] s2[t]).0 by {
        if t < s.len() {
            assert(s[j].0 != s[t].0);
        } else {
            if s2[j].0 == k {
                assert(s[j].0 == k);
                assert(has_key(s, k));
            }
        }
    }
}

} // verus!

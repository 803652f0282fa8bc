//! Disjoint-set structure over node indices, used to test whether a graph is
//! connected and to extract its connected components.
//!
//! The representative of a component is its smallest member: every parent
//! points at most as far down as its own index, so parent chains always
//! descend and terminate.

use vstd::prelude::*;
use vstd::set::{axiom_set_insert_len, axiom_set_remove_len};
use vstd::set_lib::{lemma_int_range, lemma_len_subset, set_int_range};

verus! {

/// Disjoint-set forest with path compression and a component count.
#[derive(Debug)]
pub struct UnionFind {
    pub parent: Vec<usize>,
    pub count: usize,
}

/// The root that the parent chain of `x` in `s` reaches.
pub open spec fn root_of(s: Seq<usize>, x: nat) -> nat
    decreases x,
{
    if x < s.len() && (s[x as int] as nat) < x {
        root_of(s, s[x as int] as nat)
    } else {
        x
    }
}

/// The set of roots of `s`: the indices that are their own parent.
pub open spec fn roots(s: Seq<usize>) -> Set<int> {
    Set::new(|i: int| 0 <= i < s.len() && s[i] == i)
}

/// The representative map of `s`: each index to its root.
pub open spec fn rep_map(s: Seq<usize>) -> Map<int, int> {
    Map::new(|i: int| 0 <= i < s.len(), |i: int| root_of(s, i as nat) as int)
}

/// Parent chains only descend: every entry is at most its own index.
pub open spec fn parents_descend(s: Seq<usize>) -> bool {
    forall|i: int| 0 <= i < s.len() ==> (s[i] as int) <= i
}

/// One merge step on a representative map: every index represented by the
/// larger of the two roots moves to the smaller.
pub open spec fn merge_rep(m: Map<int, int>, x: int, y: int) -> Map<int, int> {
    let rx = m[x];
    let ry = m[y];
    let rmin = if rx <= ry {
        rx
    } else {
        ry
    };
    let rmax = if rx <= ry {
        ry
    } else {
        rx
    };
    Map::new(
        |i: int| m.dom().contains(i),
        |i: int|
            if m[i] == rmax {
                rmin
            } else {
                m[i]
            },
    )
}

/// Merge steps folded over a list of pairs, first pair first.
pub open spec fn merge_all(m: Map<int, int>, pairs: Seq<(usize, usize)>) -> Map<int, int>
    decreases pairs.len(),
{
    if pairs.len() == 0 {
        m
    } else {
        merge_all(merge_rep(m, pairs[0].0 as int, pairs[0].1 as int), pairs.drop_first())
    }
}

/// The identity representative map over `0..n`.
pub open spec fn identity_rep(n: nat) -> Map<int, int> {
    Map::new(|i: int| 0 <= i < n, |i: int| i)
}

/// Append `v` to the group at position `g`.
fn group_push(groups: &mut Vec<Vec<usize>>, g: usize, v: usize)
    requires
        g < old(groups)@.len(),
    ensures
        final(groups)@.len() == old(groups)@.len(),
        final(groups)@[g as int]@ == old(groups)@[g as int]@.push(v),
        forall|j: int|
            0 <= j < old(groups)@.len() && j != g ==> final(groups)@[j] == old(groups)@[j],
{
    let slot = &mut groups[g];
    slot.push(v);
}

/// Whether some root below `i` was assigned group `g` in `slot`.
pub open spec fn group_has_root(slot: Seq<usize>, rep: Map<int, int>, i: int, g: int) -> bool {
    exists|r: int| 0 <= r < i && rep[r] == r && slot[r] == g
}

/// Whether node `i` appears somewhere in `groups`.
pub open spec fn group_member(groups: Seq<Vec<usize>>, i: usize) -> bool {
    exists|g: int, a: int|
        0 <= g < groups.len() && 0 <= a < groups[g]@.len() && groups[g]@[a] == i
}

/// Under descending parents the root is reachable, no larger than `x`, and
/// its own parent.
pub proof fn lemma_root_props(s: Seq<usize>, x: nat)
    requires
        parents_descend(s),
        x < s.len(),
    ensures
        root_of(s, x) <= x,
        root_of(s, x) < s.len(),
        s[root_of(s, x) as int] as nat == root_of(s, x),
    decreases x,
{
    if (s[x as int] as nat) < x {
        lemma_root_props(s, s[x as int] as nat);
    }
}

/// Pointing `j` directly at its root changes no node's root.
proof fn lemma_root_update_compress(s: Seq<usize>, j: nat, i: nat)
    requires
        parents_descend(s),
        j < s.len(),
    ensures
        root_of(s.update(j as int, root_of(s, j) as usize), i) == root_of(s, i),
    decreases i,
{
    let r = root_of(s, j);
    lemma_root_props(s, j);
    let s2 = s.update(j as int, r as usize);
    if i == j {
        if r < j {
            lemma_root_update_compress(s, j, r);
            lemma_root_props(s, r);
        }
    } else if i < s.len() {
        if (s[i as int] as nat) < i {
            lemma_root_update_compress(s, j, s[i as int] as nat);
        }
    }
}

/// Linking root `rmax` under root `rmin` moves exactly the nodes of `rmax`'s
/// component to `rmin` and leaves every other root unchanged.
proof fn lemma_root_update_link(s: Seq<usize>, rmax: nat, rmin: nat, i: nat)
    requires
        parents_descend(s),
        rmax < s.len(),
        rmin < rmax,
        s[rmax as int] as nat == rmax,
        s[rmin as int] as nat == rmin,
    ensures
        root_of(s.update(rmax as int, rmin as usize), i) == (if root_of(s, i) == rmax {
            rmin
        } else {
            root_of(s, i)
        }),
    decreases i,
{
    let s2 = s.update(rmax as int, rmin as usize);
    if i == rmax {
        lemma_root_update_link(s, rmax, rmin, rmin);
    } else if i < s.len() {
        if (s[i as int] as nat) < i {
            lemma_root_update_link(s, rmax, rmin, s[i as int] as nat);
        }
    }
}

/// The set of roots of `s` is finite and no larger than `s`.
pub proof fn lemma_roots_finite(s: Seq<usize>)
    ensures
        roots(s).finite(),
        roots(s).len() <= s.len(),
{
    lemma_int_range(0, s.len() as int);
    lemma_len_subset(roots(s), set_int_range(0, s.len() as int));
}

impl UnionFind {
    /// Structural invariant: parent chains descend and the component count
    /// equals the number of roots.
    pub open spec fn wf(&self) -> bool {
        &&& parents_descend(self.parent@)
        &&& self.count == roots(self.parent@).len()
    }

    /// Number of nodes the structure was built over.
    pub open spec fn n(&self) -> nat {
        self.parent@.len()
    }

    /// The representative map: each node to the smallest member of its
    /// component.
    pub open spec fn rep(&self) -> Map<int, int> {
        rep_map(self.parent@)
    }

    /// Number of components.
    pub open spec fn spec_count(&self) -> nat {
        self.count as nat
    }

    /// A fresh structure over `n` nodes, each its own component.
    pub fn new(n: usize) -> (uf: UnionFind)
        ensures
            uf.wf(),
            uf.n() == n,
            uf.rep() == identity_rep(n as nat),
            uf.spec_count() == n,
    {
        let mut parent: Vec<usize> = Vec::new();
        let mut i: usize = 0;
        while i < n
            invariant
                i <= n,
                parent@.len() == i,
                forall|j: int| 0 <= j < i ==> parent@[j] == j,
            decreases n - i,
        {
            parent.push(i);
            i += 1;
        }
        proof {
            assert(roots(parent@) =~= set_int_range(0, n as int));
            lemma_int_range(0, n as int);
            assert(rep_map(parent@) =~= identity_rep(n as nat));
        }
        UnionFind { parent, count: n }
    }

    /// A structure over `n` nodes with every pair already merged.
    pub fn new_from(n: usize, pairs: Vec<(usize, usize)>) -> (uf: UnionFind)
        requires
            forall|k: int| 0 <= k < pairs@.len() ==> #[trigger] pairs@[k].0 < n && pairs@[k].1 < n,
        ensures
            uf.wf(),
            uf.n() == n,
            uf.rep() == merge_all(identity_rep(n as nat), pairs@),
    {
        let mut uf = UnionFind::new(n);
        proof {
            assert(pairs@.skip(0) =~= pairs@);
        }
        let mut k: usize = 0;
        while k < pairs.len()
            invariant
                k <= pairs@.len(),
                uf.wf(),
                uf.n() == n,
                forall|t: int| 0 <= t < pairs@.len() ==> #[trigger] pairs@[t].0 < n
                    && pairs@[t].1 < n,
                merge_all(uf.rep(), pairs@.skip(k as int)) == merge_all(
                    identity_rep(n as nat),
                    pairs@,
                ),
            decreases pairs@.len() - k,
        {
            let (a, b) = pairs[k];
            let ghost pre = uf.rep();
            uf.union(a, b);
            proof {
                assert(uf.rep() =~= merge_rep(pre, a as int, b as int));
                assert(pairs@.skip(k as int).drop_first() =~= pairs@.skip(k + 1));
                assert(pairs@.skip(k as int)[0] == pairs@[k as int]);
            }
            k += 1;
        }
        proof {
            assert(pairs@.skip(pairs@.len() as int) =~= Seq::<(usize, usize)>::empty());
        }
        uf
    }

    /// The representative of `x`'s component, compressing the path walked.
    ///
    /// The partition itself is unchanged: every node keeps its representative.
    pub fn find(&mut self, x: usize) -> (r: usize)
        requires
            old(self).wf(),
            x < old(self).n(),
        ensures
            final(self).wf(),
            final(self).n() == old(self).n(),
            final(self).rep() == old(self).rep(),
            final(self).spec_count() == old(self).spec_count(),
            r as nat == root_of(old(self).parent@, x as nat),
    {
        let ghost s0 = self.parent@;
        // Walk up to the root.
        let mut cur = x;
        while self.parent[cur] != cur
            invariant
                self.parent@ == s0,
                parents_descend(s0),
                cur < s0.len(),
                root_of(s0, cur as nat) == root_of(s0, x as nat),
            decreases cur,
        {
            cur = self.parent[cur];
        }
        let root = cur;
        // Point every node on the walked path directly at the root.
        let mut cur = x;
        while self.parent[cur] != cur
            invariant
                self.wf(),
                self.parent@.len() == s0.len(),
                cur < s0.len(),
                root as nat == root_of(self.parent@, cur as nat),
                roots(self.parent@) == roots(s0),
                self.count == old(self).count,
                rep_map(self.parent@) == rep_map(s0),
            decreases cur,
        {
            let ghost s = self.parent@;
            let nxt = self.parent[cur];
            proof {
                lemma_root_props(s, cur as nat);
                assert forall|i: nat| true implies root_of(
                    s.update(cur as int, root),
                    i,
                ) == root_of(s, i) by {
                    lemma_root_update_compress(s, cur as nat, i);
                }
            }
            self.parent.set(cur, root);
            proof {
                assert(roots(self.parent@) =~= roots(s));
                assert(rep_map(self.parent@) =~= rep_map(s));
                assert(root_of(s, cur as nat) == root_of(s, nxt as nat));
            }
            cur = nxt;
        }
        root
    }

    /// Merge the components of `x` and `y`; the count drops by one exactly
    /// when they were distinct.  The surviving representative is the smaller
    /// of the two.
    pub fn union(&mut self, x: usize, y: usize)
        requires
            old(self).wf(),
            x < old(self).n(),
            y < old(self).n(),
        ensures
            final(self).wf(),
            final(self).n() == old(self).n(),
            final(self).rep() == merge_rep(old(self).rep(), x as int, y as int),
            old(self).rep()[x as int] == old(self).rep()[y as int] ==> final(self).spec_count()
                == old(self).spec_count(),
            old(self).rep()[x as int] != old(self).rep()[y as int] ==> final(self).spec_count()
                + 1 == old(self).spec_count(),
    {
        let ghost rep0 = self.rep();
        let ghost s0 = self.parent@;
        let fx = self.find(x);
        let fy = self.find(y);
        proof {
            lemma_root_props(s0, x as nat);
            lemma_root_props(s0, y as nat);
            assert(rep0[x as int] == fx as int);
            assert(rep0[y as int] == fy as int);
            // fx and fy are their own parents in the current state
            assert(rep_map(self.parent@)[fx as int] == rep0[fx as int]);
            assert(rep_map(self.parent@)[fy as int] == rep0[fy as int]);
            lemma_root_props(self.parent@, fx as nat);
            lemma_root_props(self.parent@, fy as nat);
        }
        if fx != fy {
            let rmin = if fx < fy {
                fx
            } else {
                fy
            };
            let rmax = if fx < fy {
                fy
            } else {
                fx
            };
            let ghost s = self.parent@;
            proof {
                assert forall|i: nat| true implies root_of(
                    s.update(rmax as int, rmin),
                    i,
                ) == (if root_of(s, i) == rmax as nat {
                    rmin as nat
                } else {
                    root_of(s, i)
                }) by {
                    lemma_root_update_link(s, rmax as nat, rmin as nat, i);
                }
            }
            self.parent.set(rmax, rmin);
            proof {
                assert(roots(self.parent@) =~= roots(s).remove(rmax as int));
                lemma_roots_finite(s);
                axiom_set_remove_len(roots(s), rmax as int);
                assert(rep_map(self.parent@) =~= merge_rep(rep0, x as int, y as int));
            }
            self.count = self.count - 1;
        } else {
            proof {
                assert(rep_map(self.parent@) =~= merge_rep(rep0, x as int, y as int));
            }
        }
    }

    /// Whether the whole structure is a single component.
    pub fn is_connected(&self) -> (r: bool)
        ensures
            r == (self.spec_count() == 1),
    {
        self.count == 1
    }

    /// The connected components: one group per representative, in ascending
    /// order of the representative, each group in ascending node order and
    /// holding exactly the nodes of that component.
    pub fn get_components(&mut self) -> (groups: Vec<Vec<usize>>)
        requires
            old(self).wf(),
        ensures
            final(self).wf(),
            final(self).n() == old(self).n(),
            final(self).rep() == old(self).rep(),
            groups@.len() == old(self).spec_count(),
            forall|g: int, a: int|
                0 <= g < groups@.len() && 0 <= a < groups@[g].len()
                    ==> (#[trigger] groups@[g][a] as int) < old(self).n(),
            // every node appears in some group
            forall|i: usize| (i as int) < old(self).n() ==> #[trigger] group_member(groups@, i),
            // groups collect nodes by representative
            forall|g: int, a: int, b: int|
                0 <= g < groups@.len() && 0 <= a < groups@[g].len() && 0 <= b < groups@[g].len()
                    ==> old(self).rep()[#[trigger] groups@[g][a] as int] == old(self).rep()[
                    #[trigger] groups@[g][b] as int],
            forall|g1: int, g2: int, a: int, b: int|
                0 <= g1 < groups@.len() && 0 <= g2 < groups@.len() && g1 != g2 && 0 <= a
                    < groups@[g1].len() && 0 <= b < groups@[g2].len() ==> old(self).rep()[
                #[trigger] groups@[g1][a] as int] != old(self).rep()[#[trigger] groups@[g2][b] as int],
            // each group is strictly ascending, so no node repeats
            forall|g: int, a: int, b: int|
                0 <= g < groups@.len() && 0 <= a < b < groups@[g].len() ==> (
                #[trigger] groups@[g][a]) < (#[trigger] groups@[g][b]),
    {
        let ghost rep0 = self.rep();
        let n = self.parent.len();
        let mut groups: Vec<Vec<usize>> = Vec::new();
        // slot[r] is the position of root r's group once r has been passed
        let mut slot: Vec<usize> = Vec::new();
        let mut j: usize = 0;
        while j < n
            invariant
                j <= n,
                slot@.len() == j,
            decreases n - j,
        {
            slot.push(0);
            j += 1;
        }
        proof {
            assert(Set::new(|t: int| 0 <= t < 0 && rep0[t] == t) =~= Set::<int>::empty());
        }
        let mut i: usize = 0;
        while i < n
            invariant
                i <= n,
                self.wf(),
                self.n() == n,
                self.rep() == rep0,
                self.count == old(self).spec_count(),
                slot@.len() == n,
                // groups so far cover exactly the roots below i
                groups@.len() == Set::new(
                    |r: int| 0 <= r < i && rep0[r] == r,
                ).len(),
                forall|r: int|
                    0 <= r < i && rep0[r] == r ==> (#[trigger] slot@[r] as int) < groups@.len(),
                forall|r1: int, r2: int|
                    0 <= r1 < i && 0 <= r2 < i && rep0[r1] == r1 && rep0[r2] == r2 && r1 != r2
                        ==> slot@[r1] != slot@[r2],
                forall|g: int|
                    0 <= g < groups@.len() ==> #[trigger] group_has_root(
                        slot@,
                        rep0,
                        i as int,
                        g,
                    ),
                // group contents: the members below i of that root's component
                forall|g: int, a: int|
                    0 <= g < groups@.len() && 0 <= a < groups@[g].len() ==> (
                    #[trigger] groups@[g][a] as int) < i,
                forall|r: int, a: int|
                    0 <= r < i && rep0[r] == r && 0 <= a < groups@[slot@[r] as int].len()
                        ==> rep0[#[trigger] groups@[slot@[r] as int][a] as int] == r,
                forall|k: usize| (k as int) < i ==> #[trigger] group_member(groups@, k),
                forall|g: int, a: int, b: int|
                    0 <= g < groups@.len() && 0 <= a < b < groups@[g].len() ==> (
                    #[trigger] groups@[g][a]) < (#[trigger] groups@[g][b]),
            decreases n - i,
        {
            let ghost pre_roots = Set::new(|t: int| 0 <= t < i && rep0[t] == t);
            let ghost pre_groups = groups@;
            let ghost pre_slot = slot@;
            let r = self.find(i);
            proof {
                assert(rep0[i as int] == r as int);
                lemma_root_props(self.parent@, i as nat);
                assert(self.parent@[r as int] == r);
                assert(rep0[r as int] == r as int);
            }
            if r == i {
                // a new component begins at its smallest member
                let glen = groups.len();
                let mut group: Vec<usize> = Vec::new();
                group.push(i);
                slot.set(i, glen);
                groups.push(group);
                proof {
                    assert(Set::new(|t: int| 0 <= t < i + 1 && rep0[t] == t) =~= pre_roots.insert(
                        i as int,
                    ));
                    lemma_int_range(0, i as int);
                    lemma_len_subset(pre_roots, set_int_range(0, i as int));
                    axiom_set_insert_len(pre_roots, i as int);
                    assert forall|g: int| 0 <= g < groups@.len() implies #[trigger] group_has_root(
                        slot@,
                        rep0,
                        i + 1,
                        g,
                    ) by {
                        if g < glen {
                            assert(group_has_root(pre_slot, rep0, i as int, g));
                            let rr = choose|rr: int|
                                0 <= rr < i && rep0[rr] == rr && pre_slot[rr] == g;
                            assert(slot@[rr] == pre_slot[rr]);
                        } else {
                            assert(slot@[i as int] == glen);
                        }
                    }
                    assert forall|k: usize| (k as int) < i + 1 implies #[trigger] group_member(
                        groups@,
                        k,
                    ) by {
                        if (k as int) < i {
                            assert(group_member(pre_groups, k));
                            let (g, a) = choose|g: int, a: int|
                                0 <= g < pre_groups.len() && 0 <= a < pre_groups[g]@.len()
                                    && pre_groups[g]@[a] == k;
                            assert(groups@[g]@[a] == k);
                        } else {
                            assert(groups@[glen as int]@[0] == i);
                        }
                    }
                }
            } else {
                // i joins the group of its representative, which was passed
                // earlier because the representative is the smallest member
                let g = slot[r];
                group_push(&mut groups, g, i);
                proof {
                    assert(Set::new(|t: int| 0 <= t < i + 1 && rep0[t] == t) =~= pre_roots);
                    assert forall|g2: int|
                        0 <= g2 < groups@.len() implies #[trigger] group_has_root(
                        slot@,
                        rep0,
                        i + 1,
                        g2,
                    ) by {
                        assert(group_has_root(pre_slot, rep0, i as int, g2));
                        let rr = choose|rr: int|
                            0 <= rr < i && rep0[rr] == rr && pre_slot[rr] == g2;
                        assert(slot@[rr] == pre_slot[rr]);
                    }
                    assert forall|rr: int, a: int|
                        0 <= rr < i + 1 && rep0[rr] == rr && 0 <= a
                            < groups@[slot@[rr] as int].len() implies rep0[#[trigger] groups@[slot@[
                        rr] as int][a] as int] == rr by {
                        assert(rr != i);
                        if slot@[rr] as int == g as int {
                            assert(rr == r as int);
                            if a < pre_groups[g as int]@.len() {
                                assert(groups@[g as int]@[a] == pre_groups[g as int]@[a]);
                            } else {
                                assert(groups@[g as int]@[a] == i);
                            }
                        } else {
                            assert(groups@[slot@[rr] as int] == pre_groups[slot@[rr] as int]);
                        }
                    }
                    assert forall|k: usize| (k as int) < i + 1 implies #[trigger] group_member(
                        groups@,
                        k,
                    ) by {
                        if (k as int) < i {
                            assert(group_member(pre_groups, k));
                            let (g2, a) = choose|g2: int, a: int|
                                0 <= g2 < pre_groups.len() && 0 <= a < pre_groups[g2]@.len()
                                    && pre_groups[g2]@[a] == k;
                            if g2 == g as int {
                                assert(groups@[g2]@[a] == k);
                            } else {
                                assert(groups@[g2]@[a] == k);
                            }
                        } else {
                            assert(groups@[g as int]@[pre_groups[g as int]@.len() as int] == i);
                        }
                    }
                    assert forall|g2: int, a: int, b: int|
                        0 <= g2 < groups@.len() && 0 <= a < b < groups@[g2].len() implies (
                    #[trigger] groups@[g2][a]) < (#[trigger] groups@[g2][b]) by {
                        if g2 == g as int {
                            if b == pre_groups[g as int]@.len() {
                                assert(groups@[g2]@[a] == pre_groups[g2]@[a]);
                                assert((pre_groups[g2]@[a] as int) < i);
                            } else {
                                assert(groups@[g2]@[a] == pre_groups[g2]@[a]);
                                assert(groups@[g2]@[b] == pre_groups[g2]@[b]);
                            }
                        } else {
                            assert(groups@[g2] == pre_groups[g2]);
                        }
                    }
                }
            }
            i += 1;
        }
        proof {
            assert forall|t: int| 0 <= t < n && rep0[t] == t implies self.parent@[t] == t by {
                lemma_root_props(self.parent@, t as nat);
            }
            assert(roots(self.parent@) =~= Set::new(|t: int| 0 <= t < n && rep0[t] == t));
            // groups hold nodes of one component each, distinct components apart
            assert forall|g: int, a: int, b: int|
                0 <= g < groups@.len() && 0 <= a < groups@[g].len() && 0 <= b
                    < groups@[g].len() implies rep0[#[trigger] groups@[g][a] as int] == rep0[
                #[trigger] groups@[g][b] as int] by {
                assert(group_has_root(slot@, rep0, n as int, g));
                let rr = choose|rr: int| 0 <= rr < n && rep0[rr] == rr && slot@[rr] == g;
                assert(rep0[groups@[slot@[rr] as int][a] as int] == rr);
                assert(rep0[groups@[slot@[rr] as int][b] as int] == rr);
            }
            assert forall|g1: int, g2: int, a: int, b: int|
                0 <= g1 < groups@.len() && 0 <= g2 < groups@.len() && g1 != g2 && 0 <= a
                    < groups@[g1].len() && 0 <= b < groups@[g2].len() implies rep0[
            #[trigger] groups@[g1][a] as int] != rep0[#[trigger] groups@[g2][b] as int] by {
                assert(group_has_root(slot@, rep0, n as int, g1));
                assert(group_has_root(slot@, rep0, n as int, g2));
                let r1 = choose|rr: int| 0 <= rr < n && rep0[rr] == rr && slot@[rr] == g1;
                let r2 = choose|rr: int| 0 <= rr < n && rep0[rr] == rr && slot@[rr] == g2;
                assert(rep0[groups@[slot@[r1] as int][a] as int] == r1);
                assert(rep0[groups@[slot@[r2] as int][b] as int] == r2);
            }
        }
        groups
    }
}

} // verus!

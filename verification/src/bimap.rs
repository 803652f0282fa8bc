//! Bidirectional mapping between protein identifiers and dense indices.
//!
//! Identifiers receive indices in insertion order.  Both directions are held
//! as association lists keyed by value, so removal in one direction removes
//! the entry in the other.

use crate::graph::{has_label, label_views};
use vstd::prelude::*;

verus! {

/// A bidirectional map from protein identifiers to indices.
#[derive(Debug)]
pub struct BiMap {
    pub entity_id: Vec<(String, usize)>,
    pub id_entity: Vec<(usize, String)>,
    pub next_id: usize,
}

/// The identifier views of an entity association list.
pub open spec fn entity_keys(s: Seq<(String, usize)>) -> Seq<Seq<char>> {
    s.map_values(|e: (String, usize)| e.0@)
}

/// Whether the forward list maps identifier `l` somewhere.
pub open spec fn maps_entity(s: Seq<(String, usize)>, l: Seq<char>) -> bool {
    exists|t: int| 0 <= t < s.len() && (#[trigger] s[t]).0@ == l
}

/// The index the forward list gives to identifier `l`.
pub open spec fn entity_index(s: Seq<(String, usize)>, l: Seq<char>) -> usize {
    s[choose|t: int| 0 <= t < s.len() && (#[trigger] s[t]).0@ == l].1
}

/// Whether the backward list maps index `i` somewhere.
pub open spec fn maps_id(s: Seq<(usize, String)>, i: usize) -> bool {
    exists|t: int| 0 <= t < s.len() && (#[trigger] s[t]).0 == i
}

/// The identifier the backward list gives to index `i`.
pub open spec fn id_entity_of(s: Seq<(usize, String)>, i: usize) -> Seq<char> {
    s[choose|t: int| 0 <= t < s.len() && (#[trigger] s[t]).0 == i].1@
}

impl BiMap {
    /// The two directions agree: distinct identifiers, distinct indices, and
    /// each forward entry mirrored backward and back.  Indices stay below
    /// the insertion counter.
    pub open spec fn wf(&self) -> bool {
        &&& self.entity_id@.len() == self.id_entity@.len()
        &&& (forall|a: int, b: int|
            0 <= a < b < self.entity_id@.len() ==> (#[trigger] self.entity_id@[a]).0@ != (
            #[trigger] self.entity_id@[b]).0@)
        &&& (forall|a: int, b: int|
            0 <= a < b < self.id_entity@.len() ==> (#[trigger] self.id_entity@[a]).0 != (
            #[trigger] self.id_entity@[b]).0)
        &&& (forall|t: int|
            0 <= t < self.entity_id@.len() ==> maps_id(
                self.id_entity@,
                (#[trigger] self.entity_id@[t]).1,
            ) && id_entity_of(self.id_entity@, self.entity_id@[t].1) == self.entity_id@[t].0@)
        &&& (forall|t: int|
            0 <= t < self.id_entity@.len() ==> maps_entity(
                self.entity_id@,
                (#[trigger] self.id_entity@[t]).1@,
            ) && entity_index(self.entity_id@, self.id_entity@[t].1@) == self.id_entity@[t].0)
        &&& (forall|t: int|
            0 <= t < self.entity_id@.len() ==> (#[trigger] self.entity_id@[t]).1 < self.next_id)
    }

    /// An empty map.
    pub fn new() -> (r: BiMap)
        ensures
            r.wf(),
            r.entity_id@.len() == 0,
            r.next_id == 0,
    {
        BiMap { entity_id: Vec::new(), id_entity: Vec::new(), next_id: 0 }
    }

    /// The number of entries.
    pub fn len(&self) -> (r: usize)
        requires
            self.wf(),
        ensures
            r == self.entity_id@.len(),
    {
        self.entity_id.len()
    }

    /// Whether the identifier is present.
    pub fn contains_entity(&self, entity: &String) -> (r: bool)
        requires
            self.wf(),
        ensures
            r == maps_entity(self.entity_id@, entity@),
    {
        self.find_entity(entity).is_some()
    }

    /// The position of the identifier in the forward list.
    fn find_entity(&self, entity: &String) -> (r: Option<usize>)
        ensures
            r is Some <==> maps_entity(self.entity_id@, entity@),
            r is Some ==> (r->Some_0 as int) < self.entity_id@.len()
                && self.entity_id@[r->Some_0 as int].0@ == entity@,
    {
        let mut t: usize = 0;
        while t < self.entity_id.len()
            invariant
                t <= self.entity_id@.len(),
                forall|u: int| 0 <= u < t ==> (#[trigger] self.entity_id@[u]).0@ != entity@,
            decreases self.entity_id@.len() - t,
        {
            if self.entity_id[t].0 == *entity {
                return Some(t);
            }
            t += 1;
        }
        None
    }

    /// The position of the index in the backward list.
    fn find_id(&self, id: usize) -> (r: Option<usize>)
        ensures
            r is Some <==> maps_id(self.id_entity@, id),
            r is Some ==> (r->Some_0 as int) < self.id_entity@.len()
                && self.id_entity@[r->Some_0 as int].0 == id,
    {
        let mut t: usize = 0;
        while t < self.id_entity.len()
            invariant
                t <= self.id_entity@.len(),
                forall|u: int| 0 <= u < t ==> (#[trigger] self.id_entity@[u]).0 != id,
            decreases self.id_entity@.len() - t,
        {
            if self.id_entity[t].0 == id {
                return Some(t);
            }
            t += 1;
        }
        None
    }

    /// The index of an identifier, if present.
    pub fn get_id(&self, entity: &String) -> (r: Option<usize>)
        requires
            self.wf(),
        ensures
            r is Some <==> maps_entity(self.entity_id@, entity@),
            r is Some ==> r->Some_0 == entity_index(self.entity_id@, entity@),
    {
        match self.find_entity(entity) {
            Some(t) => {
                proof {
                    let u = choose|u: int|
                        0 <= u < self.entity_id@.len() && (#[trigger] self.entity_id@[u]).0@
                            == entity@;
                    assert(u == t);
                }
                Some(self.entity_id[t].1)
            },
            None => None,
        }
    }

    /// The identifier of an index, if present.
    pub fn get_entity(&self, id: usize) -> (r: Option<String>)
        requires
            self.wf(),
        ensures
            r is Some <==> maps_id(self.id_entity@, id),
            r is Some ==> (r->Some_0)@ == id_entity_of(self.id_entity@, id),
    {
        match self.find_id(id) {
            Some(t) => {
                proof {
                    let u = choose|u: int|
                        0 <= u < self.id_entity@.len() && (#[trigger] self.id_entity@[u]).0 == id;
                    assert(u == t);
                }
                Some(self.id_entity[t].1.clone())
            },
            None => None,
        }
    }

    /// Insert an identifier; a present one keeps and returns its index, a
    /// new one receives the next index.
    pub fn insert(&mut self, entity: String) -> (r: usize)
        requires
            old(self).wf(),
            old(self).next_id < usize::MAX,
        ensures
            final(self).wf(),
            old(self).contains_spec(entity@) ==> *final(self) == *old(self) && r == entity_index(
                old(self).entity_id@,
                entity@,
            ),
            !old(self).contains_spec(entity@) ==> r == old(self).next_id && final(self).next_id
                == old(self).next_id + 1 && final(self).entity_id@ == old(self).entity_id@.push(
                (entity, r),
            ) && final(self).id_entity@ == old(self).id_entity@.push((r, entity)),
    {
        match self.find_entity(&entity) {
            Some(t) => {
                proof {
                    let u = choose|u: int|
                        0 <= u < self.entity_id@.len() && (#[trigger] self.entity_id@[u]).0@
                            == entity@;
                    assert(u == t);
                }
                self.entity_id[t].1
            },
            None => {
                let id = self.next_id;
                let e2 = entity.clone();
                self.entity_id.push((entity, id));
                self.id_entity.push((id, e2));
                self.next_id = id + 1;
                proof {
                    lemma_bimap_push(*old(self), *self, id);
                }
                id
            },
        }
    }

    /// Whether the map holds the identifier, at the specification level.
    pub open spec fn contains_spec(&self, l: Seq<char>) -> bool {
        maps_entity(self.entity_id@, l)
    }

    /// Remove an identifier and its index; a no-op when absent.
    pub fn remove_by_entity(&mut self, entity: &String)
        requires
            old(self).wf(),
        ensures
            final(self).wf(),
            !final(self).contains_spec(entity@),
            !old(self).contains_spec(entity@) ==> *final(self) == *old(self),
            old(self).contains_spec(entity@) ==> final(self).entity_id@ == old(
                self,
            ).entity_id@.remove(
                choose|t: int|
                    0 <= t < old(self).entity_id@.len() && (#[trigger] old(
                        self,
                    ).entity_id@[t]).0@ == entity@,
            ),
            final(self).next_id == old(self).next_id,
    {
        match self.find_entity(entity) {
            Some(t) => {
                proof {
                    let u = choose|u: int|
                        0 <= u < self.entity_id@.len() && (#[trigger] self.entity_id@[u]).0@
                            == entity@;
                    assert(u == t);
                }
                let id = self.entity_id[t].1;
                let _ = self.entity_id.remove(t);
                let pos = match self.find_id(id) {
                    Some(p) => p,
                    None => {
                        proof {
                            assert(maps_id(old(self).id_entity@, id));
                            let p = choose|p: int|
                                0 <= p < old(self).id_entity@.len() && (#[trigger] old(
                                    self,
                                ).id_entity@[p]).0 == id;
                            assert(self.id_entity@[p].0 == id);
                            assert(false);
                        }
                        0
                    },
                };
                let _ = self.id_entity.remove(pos);
                proof {
                    lemma_bimap_remove(*old(self), *self, t as int, pos as int);
                }
            },
            None => {},
        }
    }

    /// Remove an index and its identifier; a no-op when absent.
    pub fn remove_by_id(&mut self, id: usize)
        requires
            old(self).wf(),
        ensures
            final(self).wf(),
            !maps_id(final(self).id_entity@, id),
            !maps_id(old(self).id_entity@, id) ==> *final(self) == *old(self),
            final(self).next_id == old(self).next_id,
    {
        match self.find_id(id) {
            Some(p) => {
                proof {
                    let u = choose|u: int|
                        0 <= u < self.id_entity@.len() && (#[trigger] self.id_entity@[u]).0 == id;
                    assert(u == p);
                }
                let entity = self.id_entity[p].1.clone();
                let _ = self.id_entity.remove(p);
                let t = match self.find_entity(&entity) {
                    Some(t) => t,
                    None => {
                        proof {
                            assert(maps_entity(old(self).entity_id@, entity@));
                            let u = choose|u: int|
                                0 <= u < old(self).entity_id@.len() && (#[trigger] old(
                                    self,
                                ).entity_id@[u]).0@ == entity@;
                            assert(self.entity_id@[u].0@ == entity@);
                            assert(false);
                        }
                        0
                    },
                };
                let _ = self.entity_id.remove(t);
                proof {
                    lemma_bimap_remove(*old(self), *self, t as int, p as int);
                }
            },
            None => {},
        }
    }

    /// Every index of the map, each exactly once, in strictly ascending
    /// order.
    pub fn ids(&self) -> (r: Vec<usize>)
        requires
            self.wf(),
        ensures
            r@.len() == self.id_entity@.len(),
            forall|i: int| 0 <= i < r@.len() ==> maps_id(self.id_entity@, #[trigger] r@[i]),
            forall|t: int|
                0 <= t < self.id_entity@.len() ==> r@.contains((#[trigger] self.id_entity@[t]).0),
            forall|a: int, b: int| 0 <= a < b < r@.len() ==> r@[a] < r@[b],
    {
        broadcast use vstd::seq_lib::group_to_multiset_ensures;

        let mut v: Vec<usize> = Vec::new();
        let mut t: usize = 0;
        while t < self.id_entity.len()
            invariant
                self.wf(),
                t <= self.id_entity@.len(),
                v@.len() == t,
                forall|i: int| 0 <= i < t ==> (#[trigger] v@[i]) == self.id_entity@[i].0,
            decreases self.id_entity@.len() - t,
        {
            let id = self.id_entity[t].0;
            v.push(id);
            t += 1;
        }
        let ghost v0 = v@;
        let r = sort_ids(v);
        proof {
            assert(v0.no_duplicates());
            assert forall|i: int| 0 <= i < r@.len() implies maps_id(
                self.id_entity@,
                #[trigger] r@[i],
            ) by {
                assert(r@.to_multiset().count(r@[i]) > 0) by {
                    assert(r@.contains(r@[i]));
                }
                assert(v0.contains(r@[i]));
                let u = choose|u: int| 0 <= u < v0.len() && v0[u] == r@[i];
                assert(self.id_entity@[u].0 == r@[i]);
            }
            assert forall|t2: int| 0 <= t2 < self.id_entity@.len() implies r@.contains(
                (#[trigger] self.id_entity@[t2]).0,
            ) by {
                assert(v0[t2] == self.id_entity@[t2].0);
                assert(v0.contains(self.id_entity@[t2].0));
                assert(r@.to_multiset().count(self.id_entity@[t2].0) > 0);
            }
            assert(r@.no_duplicates()) by {
                v0.lemma_multiset_has_no_duplicates();
                assert(forall|x: usize|
                    r@.to_multiset().contains(x) ==> r@.to_multiset().count(x) == 1);
                r@.lemma_multiset_has_no_duplicates_conv();
            }
            assert forall|a: int, b: int| 0 <= a < b < r@.len() implies r@[a] < r@[b] by {
                assert(r@[a] <= r@[b]);
                assert(r@[a] != r@[b]);
            }
        }
        r
    }

    /// The identifiers, in insertion order.
    pub fn entitys(&self) -> (r: Vec<String>)
        requires
            self.wf(),
        ensures
            r@.len() == self.entity_id@.len(),
            forall|i: int| 0 <= i < r@.len() ==> (#[trigger] r@[i])@ == self.entity_id@[i].0@,
    {
        let mut r: Vec<String> = Vec::new();
        let mut t: usize = 0;
        while t < self.entity_id.len()
            invariant
                t <= self.entity_id@.len(),
                r@.len() == t,
                forall|i: int| 0 <= i < t ==> (#[trigger] r@[i])@ == self.entity_id@[i].0@,
            decreases self.entity_id@.len() - t,
        {
            r.push(self.entity_id[t].0.clone());
            t += 1;
        }
        r
    }

    /// The identifiers as a vector indexed by their id.  Meaningful when
    /// the ids form the dense range `0 .. len`, as insertion builds them;
    /// a slot whose index maps to no identifier holds the empty string.
    pub fn into_vec(&self) -> (r: Vec<String>)
        requires
            self.wf(),
        ensures
            r@.len() == self.id_entity@.len(),
            forall|i: int|
                0 <= i < r@.len() && maps_id(self.id_entity@, i as usize) ==> (
                #[trigger] r@[i])@ == id_entity_of(self.id_entity@, i as usize),
            forall|i: int|
                0 <= i < r@.len() && !maps_id(self.id_entity@, i as usize) ==> (
                #[trigger] r@[i])@ == Seq::<char>::empty(),
    {
        let n = self.id_entity.len();
        let mut r: Vec<String> = Vec::new();
        let mut i: usize = 0;
        while i < n
            invariant
                self.wf(),
                i <= n,
                n == self.id_entity@.len(),
                r@.len() == i,
                forall|t: int|
                    0 <= t < i && maps_id(self.id_entity@, t as usize) ==> (#[trigger] r@[t])@
                        == id_entity_of(self.id_entity@, t as usize),
                forall|t: int|
                    0 <= t < i && !maps_id(self.id_entity@, t as usize) ==> (#[trigger] r@[t])@
                        == Seq::<char>::empty(),
            decreases n - i,
        {
            match self.get_entity(i) {
                Some(e) => {
                    r.push(e);
                },
                None => {
                    r.push(String::new());
                },
            }
            i += 1;
        }
        r
    }
}

/// Sort indices ascending; the result is a permutation.
fn sort_ids(v: Vec<usize>) -> (r: Vec<usize>)
    ensures
        r@.to_multiset() == v@.to_multiset(),
        forall|a: int, b: int| 0 <= a < b < r@.len() ==> r@[a] <= r@[b],
        r@.len() == v@.len(),
{
    broadcast use vstd::seq_lib::group_to_multiset_ensures;

    let mut rest = v;
    let mut out: Vec<usize> = Vec::new();
    let ghost orig = rest@.to_multiset();
    proof {
        assert(out@.to_multiset().add(rest@.to_multiset()) =~= orig);
    }
    while rest.len() > 0
        invariant
            out@.to_multiset().add(rest@.to_multiset()) == orig,
            forall|a: int, b: int| 0 <= a < b < out@.len() ==> out@[a] <= out@[b],
            forall|a: int, b: int|
                0 <= a < out@.len() && 0 <= b < rest@.len() ==> (#[trigger] out@[a]) <= (
                #[trigger] rest@[b]),
            out@.len() + rest@.len() == orig.len(),
        decreases rest@.len(),
    {
        let mut best: usize = 0;
        let mut j: usize = 1;
        while j < rest.len()
            invariant
                best < j <= rest@.len(),
                rest@.len() > 0,
                forall|t: int| 0 <= t < j ==> rest@[best as int] <= (#[trigger] rest@[t]),
            decreases rest@.len() - j,
        {
            if rest[j] < rest[best] {
                best = j;
            }
            j += 1;
        }
        let ghost pre_rest = rest@;
        let ghost pre_out = out@;
        let c = rest.remove(best);
        out.push(c);
        proof {
            assert(rest@ == pre_rest.remove(best as int));
            vstd::seq_lib::to_multiset_remove::<usize>(pre_rest, best as int);
            vstd::seq_lib::to_multiset_build::<usize>(pre_out, c);
            vstd::seq_lib::to_multiset_contains::<usize>(pre_rest, c);
            assert(pre_rest.contains(c));
            assert(out@.to_multiset().add(rest@.to_multiset()) =~= orig);
            assert forall|a: int, b: int|
                0 <= a < out@.len() && 0 <= b < rest@.len() implies (#[trigger] out@[a]) <= (
            #[trigger] rest@[b]) by {
                if b < best {
                    assert(rest@[b] == pre_rest[b]);
                } else {
                    assert(rest@[b] == pre_rest[b + 1]);
                }
                if a < pre_out.len() {
                    assert(out@[a] == pre_out[a]);
                } else {
                    assert(out@[a] == c);
                }
            }
        }
    }
    proof {
        assert(out@.to_multiset().len() == orig.len());
    }
    out
}

/// Appending a fresh identifier with a fresh index keeps the map agreeing.
proof fn lemma_bimap_push(pre: BiMap, post: BiMap, id: usize)
    requires
        pre.wf(),
        !maps_entity(pre.entity_id@, post.entity_id@[pre.entity_id@.len() as int].0@),
        post.entity_id@.len() == pre.entity_id@.len() + 1,
        post.id_entity@.len() == pre.id_entity@.len() + 1,
        forall|t: int| 0 <= t < pre.entity_id@.len() ==> post.entity_id@[t] == pre.entity_id@[t],
        forall|t: int| 0 <= t < pre.id_entity@.len() ==> post.id_entity@[t] == pre.id_entity@[t],
        post.entity_id@.last().1 == id,
        post.id_entity@.last().0 == id,
        post.entity_id@.last().0@ == post.id_entity@.last().1@,
        id == pre.next_id,
        post.next_id == pre.next_id + 1,
    ensures
        post.wf(),
{
    let n = pre.entity_id@.len() as int;
    assert forall|t: int| 0 <= t < post.entity_id@.len() implies maps_id(
        post.id_entity@,
        (#[trigger] post.entity_id@[t]).1,
    ) && id_entity_of(post.id_entity@, post.entity_id@[t].1) == post.entity_id@[t].0@ by {
        if t < n {
            assert(maps_id(pre.id_entity@, pre.entity_id@[t].1));
            let u = choose|u: int|
                0 <= u < pre.id_entity@.len() && (#[trigger] pre.id_entity@[u]).0
                    == pre.entity_id@[t].1;
            assert(post.id_entity@[u].0 == post.entity_id@[t].1);
            assert(maps_id(post.id_entity@, post.entity_id@[t].1));
            let w = choose|w: int|
                0 <= w < post.id_entity@.len() && (#[trigger] post.id_entity@[w]).0
                    == post.entity_id@[t].1;
            assert(w == u) by {
                if w == n {
                    assert(pre.entity_id@[t].1 < pre.next_id);
                }
            }
        } else {
            assert(post.id_entity@[n].0 == post.entity_id@[t].1);
            assert(maps_id(post.id_entity@, post.entity_id@[t].1));
            let w = choose|w: int|
                0 <= w < post.id_entity@.len() && (#[trigger] post.id_entity@[w]).0
                    == post.entity_id@[t].1;
            assert(w == n) by {
                if w < n {
                    assert(pre.id_entity@[w].0 == id);
                    assert(maps_entity(pre.entity_id@, pre.id_entity@[w].1@));
                    let x = choose|x: int|
                        0 <= x < pre.entity_id@.len() && (#[trigger] pre.entity_id@[x]).0@
                            == pre.id_entity@[w].1@;
                    assert(pre.entity_id@[x].1 == entity_index(
                        pre.entity_id@,
                        pre.id_entity@[w].1@,
                    ));
                    assert(pre.entity_id@[x].1 == id);
                    assert(pre.entity_id@[x].1 < pre.next_id);
                }
            }
        }
    }
    assert forall|t: int| 0 <= t < post.id_entity@.len() implies maps_entity(
        post.entity_id@,
        (#[trigger] post.id_entity@[t]).1@,
    ) && entity_index(post.entity_id@, post.id_entity@[t].1@) == post.id_entity@[t].0 by {
        if t < n {
            assert(maps_entity(pre.entity_id@, pre.id_entity@[t].1@));
            let u = choose|u: int|
                0 <= u < pre.entity_id@.len() && (#[trigger] pre.entity_id@[u]).0@
                    == pre.id_entity@[t].1@;
            assert(post.entity_id@[u].0@ == post.id_entity@[t].1@);
            assert(maps_entity(post.entity_id@, post.id_entity@[t].1@));
            let w = choose|w: int|
                0 <= w < post.entity_id@.len() && (#[trigger] post.entity_id@[w]).0@
                    == post.id_entity@[t].1@;
            assert(w == u) by {
                if w == n {
                    assert(!maps_entity(pre.entity_id@, post.entity_id@[n].0@));
                    assert(pre.entity_id@[u].0@ == post.entity_id@[n].0@ ==> maps_entity(
                        pre.entity_id@,
                        post.entity_id@[n].0@,
                    ));
                }
            }
        } else {
            assert(post.entity_id@[n].0@ == post.id_entity@[t].1@);
            assert(maps_entity(post.entity_id@, post.id_entity@[t].1@));
            let w = choose|w: int|
                0 <= w < post.entity_id@.len() && (#[trigger] post.entity_id@[w]).0@
                    == post.id_entity@[t].1@;
            assert(w == n) by {
                if w < n {
                    assert(maps_entity(pre.entity_id@, post.entity_id@[n].0@));
                }
            }
        }
    }
    assert forall|a: int, b: int|
        0 <= a < b < post.entity_id@.len() implies (#[trigger] post.entity_id@[a]).0@ != (
    #[trigger] post.entity_id@[b]).0@ by {
        if b == n {
            if post.entity_id@[a].0@ == post.entity_id@[b].0@ {
                assert(maps_entity(pre.entity_id@, post.entity_id@[n].0@));
            }
        }
    }
    assert forall|a: int, b: int|
        0 <= a < b < post.id_entity@.len() implies (#[trigger] post.id_entity@[a]).0 != (
    #[trigger] post.id_entity@[b]).0 by {
        if b == n {
            if post.id_entity@[a].0 == id {
                assert(maps_entity(pre.entity_id@, pre.id_entity@[a].1@));
                let x = choose|x: int|
                    0 <= x < pre.entity_id@.len() && (#[trigger] pre.entity_id@[x]).0@
                        == pre.id_entity@[a].1@;
                assert(pre.entity_id@[x].1 == id);
                assert(pre.entity_id@[x].1 < pre.next_id);
            }
        }
    }
}

/// Removing the two mirrored entries keeps the map agreeing.
proof fn lemma_bimap_remove(pre: BiMap, post: BiMap, t: int, p: int)
    requires
        pre.wf(),
        0 <= t < pre.entity_id@.len(),
        0 <= p < pre.id_entity@.len(),
        pre.id_entity@[p].0 == pre.entity_id@[t].1,
        post.entity_id@ == pre.entity_id@.remove(t),
        post.id_entity@ == pre.id_entity@.remove(p),
        post.next_id == pre.next_id,
    ensures
        post.wf(),
        !maps_entity(post.entity_id@, pre.entity_id@[t].0@),
        !maps_id(post.id_entity@, pre.id_entity@[p].0),
{
    let e = pre.entity_id@;
    let d = pre.id_entity@;
    assert forall|u: int| 0 <= u < post.entity_id@.len() implies #[trigger] post.entity_id@[u]
        == (if u < t {
        e[u]
    } else {
        e[u + 1]
    }) by {}
    assert forall|u: int| 0 <= u < post.id_entity@.len() implies #[trigger] post.id_entity@[u]
        == (if u < p {
        d[u]
    } else {
        d[u + 1]
    }) by {}
    // the removed pair is mirrored: removing both keeps every other link
    assert(d[p].1@ == e[t].0@) by {
        assert(maps_id(d, e[t].1));
        let w = choose|w: int| 0 <= w < d.len() && (#[trigger] d[w]).0 == e[t].1;
        assert(w == p);
        assert(id_entity_of(d, e[t].1) == e[t].0@);
    }
    assert(!maps_entity(post.entity_id@, e[t].0@)) by {
        if maps_entity(post.entity_id@, e[t].0@) {
            let u = choose|u: int|
                0 <= u < post.entity_id@.len() && (#[trigger] post.entity_id@[u]).0@ == e[t].0@;
            if u < t {
                assert(e[u].0@ == e[t].0@);
            } else {
                assert(e[u + 1].0@ == e[t].0@);
            }
        }
    }
    assert(!maps_id(post.id_entity@, d[p].0)) by {
        if maps_id(post.id_entity@, d[p].0) {
            let u = choose|u: int|
                0 <= u < post.id_entity@.len() && (#[trigger] post.id_entity@[u]).0 == d[p].0;
            if u < p {
                assert(d[u].0 == d[p].0);
            } else {
                assert(d[u + 1].0 == d[p].0);
            }
        }
    }
    assert forall|u: int| 0 <= u < post.entity_id@.len() implies maps_id(
        post.id_entity@,
        (#[trigger] post.entity_id@[u]).1,
    ) && id_entity_of(post.id_entity@, post.entity_id@[u].1) == post.entity_id@[u].0@ by {
        let ou = if u < t {
            u
        } else {
            u + 1
        };
        assert(post.entity_id@[u] == e[ou]);
        assert(maps_id(d, e[ou].1));
        let w = choose|w: int| 0 <= w < d.len() && (#[trigger] d[w]).0 == e[ou].1;
        assert(w != p) by {
            if w == p {
                assert(e[ou].1 == e[t].1);
                assert(maps_entity(e, d[p].1@));
                assert(ou != t);
                assert(e[ou].1 != e[t].1) by {
                    // distinct identifiers map to distinct ids: both entries
                    // point backward to the same id otherwise
                    let w1 = choose|w1: int| 0 <= w1 < d.len() && (#[trigger] d[w1]).0 == e[ou].1;
                    assert(id_entity_of(d, e[ou].1) == e[ou].0@);
                    assert(id_entity_of(d, e[t].1) == e[t].0@);
                }
            }
        }
        let nw = if w < p {
            w
        } else {
            w - 1
        };
        assert(post.id_entity@[nw] == d[w]);
        assert(maps_id(post.id_entity@, e[ou].1));
        let w2 = choose|w2: int|
            0 <= w2 < post.id_entity@.len() && (#[trigger] post.id_entity@[w2]).0 == e[ou].1;
        let ow2 = if w2 < p {
            w2
        } else {
            w2 + 1
        };
        assert(post.id_entity@[w2] == d[ow2]);
        assert(ow2 == w);
    }
    assert forall|u: int| 0 <= u < post.id_entity@.len() implies maps_entity(
        post.entity_id@,
        (#[trigger] post.id_entity@[u]).1@,
    ) && entity_index(post.entity_id@, post.id_entity@[u].1@) == post.id_entity@[u].0 by {
        let ou = if u < p {
            u
        } else {
            u + 1
        };
        assert(post.id_entity@[u] == d[ou]);
        assert(maps_entity(e, d[ou].1@));
        let w = choose|w: int| 0 <= w < e.len() && (#[trigger] e[w]).0@ == d[ou].1@;
        assert(w != t) by {
            if w == t {
                assert(e[t].0@ == d[ou].1@);
                assert(d[ou].1@ == d[p].1@);
                assert(ou != p);
                let x1 = choose|x1: int| 0 <= x1 < e.len() && (#[trigger] e[x1]).0@ == d[ou].1@;
                assert(entity_index(e, d[ou].1@) == d[ou].0);
                assert(entity_index(e, d[p].1@) == d[p].0);
            }
        }
        let nw = if w < t {
            w
        } else {
            w - 1
        };
        assert(post.entity_id@[nw] == e[w]);
        assert(maps_entity(post.entity_id@, d[ou].1@));
        let w2 = choose|w2: int|
            0 <= w2 < post.entity_id@.len() && (#[trigger] post.entity_id@[w2]).0@ == d[ou].1@;
        let ow2 = if w2 < t {
            w2
        } else {
            w2 + 1
        };
        assert(post.entity_id@[w2] == e[ow2]);
        assert(ow2 == w);
    }
}

} // verus!

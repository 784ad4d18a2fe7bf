//! A symmetric adjacency graph over integer node ids, together with a
//! node-weighted shortest-path search.
//!
//! The graph stores, for every present id, the list of its neighbor ids;
//! membership is always mutual. Neighbors must exist before the node that
//! lists them is inserted, so edges can only be declared backward to
//! already-known nodes.

use vstd::prelude::*;

verus! {

use crate::errors::MapError;
use std::collections::HashMap;

broadcast use vstd::std_specs::hash::group_hash_axioms;

/// A sequence of integers with no repeated element.
pub open spec fn seq_no_dups(s: Seq<i32>) -> bool {
    forall|i: int, j: int| 0 <= i < j < s.len() ==> s[i] != s[j]
}

/// The set of elements of a sequence.
pub open spec fn seq_set(s: Seq<i32>) -> Set<i32> {
    Set::new(|x: i32| s.contains(x))
}

/// Whether the association list holds an entry for key `k`.
pub open spec fn alist_has_key(s: Seq<(i32, Vec<i32>)>, k: i32) -> bool {
    exists|i: int| 0 <= i < s.len() && s[i].0 == k
}

/// The position of key `k` in the association list.
pub open spec fn alist_index_of(s: Seq<(i32, Vec<i32>)>, k: i32) -> int {
    choose|i: int| 0 <= i < s.len() && s[i].0 == k
}

/// The neighbor set recorded for key `k`.
pub open spec fn alist_neighbors(s: Seq<(i32, Vec<i32>)>, k: i32) -> Set<i32> {
    seq_set(s[alist_index_of(s, k)].1@)
}

/// The adjacency mapping represented by the association list.
pub open spec fn alist_view(s: Seq<(i32, Vec<i32>)>) -> Map<i32, Set<i32>> {
    Map::new(|k: i32| alist_has_key(s, k), |k: i32| alist_neighbors(s, k))
}

/// No two entries of the association list share a key.
pub open spec fn alist_keys_distinct(s: Seq<(i32, Vec<i32>)>) -> bool {
    forall|i: int, j: int| 0 <= i < j < s.len() ==> s[i].0 != s[j].0
}

/// Every listed neighbor is itself a key of the list.
pub open spec fn alist_closed(s: Seq<(i32, Vec<i32>)>) -> bool {
    forall|i: int, p: int|
        0 <= i < s.len() && 0 <= p < s[i].1@.len() ==> alist_has_key(s, #[trigger] s[i].1@[p])
}

/// No entry lists its own key as a neighbor.
pub open spec fn alist_loop_free(s: Seq<(i32, Vec<i32>)>) -> bool {
    forall|i: int| 0 <= i < s.len() ==> !(#[trigger] s[i].1@).contains(s[i].0)
}

/// Full well-formedness of the association-list representation: distinct
/// keys, duplicate-free neighbor lists, no self loops, every neighbor
/// present, and mutual membership.
pub open spec fn alist_wf(s: Seq<(i32, Vec<i32>)>) -> bool {
    &&& alist_keys_distinct(s)
    &&& forall|i: int| 0 <= i < s.len() ==> seq_no_dups(#[trigger] s[i].1@)
    &&& alist_loop_free(s)
    &&& alist_closed(s)
    &&& forall|i: int, p: int|
        0 <= i < s.len() && 0 <= p < s[i].1@.len() ==> alist_neighbors(
            s,
            #[trigger] s[i].1@[p],
        ).contains(s[i].0)
}

/// Well-formedness of an adjacency mapping: every neighbor is present,
/// membership is mutual, and no node neighbors itself.
pub open spec fn adjacency_wf(g: Map<i32, Set<i32>>) -> bool {
    &&& forall|a: i32, b: i32|
        g.contains_key(a) && #[trigger] g[a].contains(b) ==> g.contains_key(b)
    &&& forall|a: i32, b: i32|
        g.contains_key(a) && #[trigger] g[a].contains(b) ==> g[b].contains(a)
    &&& forall|a: i32| g.contains_key(a) ==> !(#[trigger] g[a]).contains(a)
}

/// The mapping after inserting a fresh node with the given neighbor set:
/// the node maps to that set, and it is added to each listed neighbor's
/// set.
pub open spec fn graph_insert_effect(g: Map<i32, Set<i32>>, node: i32, ns: Set<i32>) -> Map<
    i32,
    Set<i32>,
> {
    Map::new(
        |k: i32| g.contains_key(k) || k == node,
        |k: i32|
            if k == node {
                ns
            } else if ns.contains(k) {
                g[k].insert(node)
            } else {
                g[k]
            },
    )
}

/// The mapping after deleting a node: its entry disappears and it is
/// stripped from every remaining neighbor set.
pub open spec fn graph_remove_effect(g: Map<i32, Set<i32>>, node: i32) -> Map<i32, Set<i32>> {
    Map::new(|k: i32| g.contains_key(k) && k != node, |k: i32| g[k].remove(node))
}

/// With distinct keys, the index found for an entry's key is that entry's
/// own position.
pub proof fn lemma_index_of(s: Seq<(i32, Vec<i32>)>, j: int)
    requires
        alist_keys_distinct(s),
        0 <= j < s.len(),
    ensures
        alist_has_key(s, s[j].0),
        alist_index_of(s, s[j].0) == j,
{
    assert(alist_has_key(s, s[j].0));
    let i = alist_index_of(s, s[j].0);
    assert(0 <= i < s.len() && s[i].0 == s[j].0);
    if i < j {
        assert(s[i].0 != s[j].0);
    } else if j < i {
        assert(s[j].0 != s[i].0);
    }
}

/// A symmetric adjacency structure over integer ids. Its mathematical
/// view is a mapping from each present id to its neighbor set.
#[derive(Debug, Clone, PartialEq)]
pub struct BidirectionalGraph {
    adj: Vec<(i32, Vec<i32>)>,
}

impl View for BidirectionalGraph {
    type V = Map<i32, Set<i32>>;

    closed spec fn view(&self) -> Map<i32, Set<i32>> {
        alist_view(self.adj@)
    }
}

impl BidirectionalGraph {
    /// Internal representation invariant.
    pub closed spec fn wf(self) -> bool {
        alist_wf(self.adj@)
    }

    /// A well-formed graph's view is a well-formed adjacency mapping.
    pub proof fn lemma_view_wf(self)
        requires
            self.wf(),
        ensures
            adjacency_wf(self@),
    {
        let s = self.adj@;
        assert forall|a: i32, b: i32|
            self@.contains_key(a) && #[trigger] self@[a].contains(b) implies self@.contains_key(b)
            && self@[b].contains(a) && a != b by {
            let i = alist_index_of(s, a);
            assert(0 <= i < s.len() && s[i].0 == a);
            assert(self@[a] == alist_neighbors(s, a));
            assert(s[i].1@.contains(b));
            let p = choose|p: int| 0 <= p < s[i].1@.len() && s[i].1@[p] == b;
            assert(alist_has_key(s, s[i].1@[p]));
            assert(alist_neighbors(s, s[i].1@[p]).contains(s[i].0));
            assert(!s[i].1@.contains(s[i].0));
        }
    }

    /// An empty graph.
    pub fn new() -> (g: Self)
        ensures
            g.wf(),
            g@ == Map::<i32, Set<i32>>::empty(),
    {
        let g = BidirectionalGraph { adj: Vec::new() };
        proof {
            assert(g@ =~= Map::<i32, Set<i32>>::empty());
        }
        g
    }

    /// Position of the entry for `k`, if present.
    fn find_index(&self, k: i32) -> (r: Option<usize>)
        ensures
            match r {
                Some(i) => i < self.adj@.len() && self.adj@[i as int].0 == k,
                None => !alist_has_key(self.adj@, k),
            },
    {
        let mut i: usize = 0;
        while i < self.adj.len()
            invariant
                i <= self.adj@.len(),
                forall|j: int| 0 <= j < i ==> self.adj@[j].0 != k,
            decreases self.adj@.len() - i,
        {
            if self.adj[i].0 == k {
                return Some(i);
            }
            i = i + 1;
        }
        None
    }

    /// Raw read access to the adjacency structure: each entry pairs a node
    /// id with its neighbor list.
    pub fn get_map(&self) -> (r: &Vec<(i32, Vec<i32>)>)
        requires
            self.wf(),
        ensures
            r@ == self.spec_entries(),
            alist_wf(r@),
            alist_view(r@) == self@,
    {
        &self.adj
    }

    /// The representation sequence behind the graph.
    pub closed spec fn spec_entries(self) -> Seq<(i32, Vec<i32>)> {
        self.adj@
    }

    /// Inserts a node with an initial neighbor list. Every listed neighbor
    /// must already be present, and the node itself must be fresh; on
    /// success the node is also added to each listed neighbor's set. On
    /// failure nothing changes.
    pub fn insert_node(&mut self, node: i32, neighbors: Vec<i32>) -> (r: Result<(), MapError>)
        requires
            old(self).wf(),
        ensures
            final(self).wf(),
            match r {
                Ok(_) => {
                    &&& !old(self)@.contains_key(node)
                    &&& forall|n: i32| neighbors@.contains(n) ==> old(self)@.contains_key(n)
                    &&& final(self)@ == graph_insert_effect(old(self)@, node, seq_set(neighbors@))
                },
                Err(MapError::MissingEntity) => {
                    &&& exists|n: i32| neighbors@.contains(n) && !old(self)@.contains_key(n)
                    &&& *final(self) == *old(self)
                },
                Err(MapError::DuplicateEntity) => {
                    &&& forall|n: i32| neighbors@.contains(n) ==> old(self)@.contains_key(n)
                    &&& old(self)@.contains_key(node)
                    &&& *final(self) == *old(self)
                },
                Err(_) => false,
            },
    {
        let ghost s0 = self.adj@;
        // All listed neighbors must already be present.
        let mut i: usize = 0;
        while i < neighbors.len()
            invariant
                i <= neighbors@.len(),
                *self == *old(self),
                forall|j: int| 0 <= j < i ==> alist_has_key(self.adj@, neighbors@[j]),
            decreases neighbors@.len() - i,
        {
            if self.find_index(neighbors[i]).is_none() {
                proof {
                    assert(neighbors@.contains(neighbors@[i as int]));
                }
                return Err(MapError::MissingEntity);
            }
            i = i + 1;
        }
        proof {
            assert forall|n: i32| neighbors@.contains(n) implies old(self)@.contains_key(n) by {
                let j = choose|j: int| 0 <= j < neighbors@.len() && neighbors@[j] == n;
                assert(alist_has_key(self.adj@, neighbors@[j]));
            }
        }
        // The node itself must be fresh.
        if self.find_index(node).is_some() {
            return Err(MapError::DuplicateEntity);
        }
        // Work with a duplicate-free copy of the neighbor list.
        let mut uniq: Vec<i32> = Vec::new();
        let mut i: usize = 0;
        while i < neighbors.len()
            invariant
                i <= neighbors@.len(),
                *self == *old(self),
                seq_no_dups(uniq@),
                forall|x: i32| uniq@.contains(x) ==> neighbors@.contains(x),
                forall|j: int| 0 <= j < i ==> uniq@.contains(neighbors@[j]),
            decreases neighbors@.len() - i,
        {
            let x = neighbors[i];
            if !vec_has(&uniq, x) {
                let ghost u0 = uniq@;
                uniq.push(x);
                proof {
                    assert forall|y: i32| u0.contains(y) implies uniq@.contains(y) by {
                        let j = choose|j: int| 0 <= j < u0.len() && u0[j] == y;
                        assert(uniq@[j] == y);
                    }
                    assert(uniq@[u0.len() as int] == x);
                }
            }
            i = i + 1;
        }
        proof {
            assert forall|x: i32| uniq@.contains(x) implies neighbors@.contains(x) by {}
            assert forall|x: i32| neighbors@.contains(x) implies uniq@.contains(x) by {
                let j = choose|j: int| 0 <= j < neighbors@.len() && neighbors@[j] == x;
            }
            assert(seq_set(uniq@) =~= seq_set(neighbors@));
            // The fresh node cannot appear among the (present) neighbors.
            assert(!uniq@.contains(node));
        }
        // Add the node to each listed neighbor's list.
        let ghost su = uniq@;
        let mut i: usize = 0;
        while i < self.adj.len()
            invariant
                i <= self.adj@.len(),
                self.adj@.len() == s0.len(),
                su == uniq@,
                forall|j: int| 0 <= j < s0.len() ==> (#[trigger] self.adj@[j]).0 == s0[j].0,
                forall|j: int|
                    0 <= j < i ==> (#[trigger] self.adj@[j]).1@ == if su.contains(s0[j].0) {
                        s0[j].1@.push(node)
                    } else {
                        s0[j].1@
                    },
                forall|j: int| i <= j < s0.len() ==> (#[trigger] self.adj@[j]).1@ == s0[j].1@,
            decreases self.adj@.len() - i,
        {
            let key = self.adj[i].0;
            if vec_has(&uniq, key) {
                self.adj[i].1.push(node);
            }
            i = i + 1;
        }
        self.adj.push((node, uniq));
        proof {
            self.lemma_insert_node_post(s0, node, su);
            assert(seq_set(su) =~= seq_set(neighbors@));
            assert(final(self)@ =~~= graph_insert_effect(old(self)@, node, seq_set(neighbors@)));
        }
        Ok(())
    }

    /// Establishes well-formedness and the view effect after the
    /// representation change performed by `insert_node`.
    proof fn lemma_insert_node_post(self, s0: Seq<(i32, Vec<i32>)>, node: i32, su: Seq<i32>)
        requires
            alist_wf(s0),
            !alist_has_key(s0, node),
            seq_no_dups(su),
            forall|x: i32| su.contains(x) ==> alist_has_key(s0, x),
            !su.contains(node),
            self.adj@.len() == s0.len() + 1,
            self.adj@[s0.len() as int] == (node, self.adj@[s0.len() as int].1),
            self.adj@[s0.len() as int].0 == node,
            self.adj@[s0.len() as int].1@ == su,
            forall|j: int| 0 <= j < s0.len() ==> (#[trigger] self.adj@[j]).0 == s0[j].0,
            forall|j: int|
                0 <= j < s0.len() ==> (#[trigger] self.adj@[j]).1@ == if su.contains(s0[j].0) {
                    s0[j].1@.push(node)
                } else {
                    s0[j].1@
                },
        ensures
            self.wf(),
            self@ =~~= graph_insert_effect(alist_view(s0), node, seq_set(su)),
    {
        let s = self.adj@;
        let n = s0.len() as int;
        // Key correspondence in both directions.
        assert forall|k: i32| alist_has_key(s, k) implies alist_has_key(s0, k) || k == node by {
            let i = choose|i: int| 0 <= i < s.len() && s[i].0 == k;
            if i < n {
                assert(s0[i].0 == k);
            }
        }
        assert forall|k: i32| alist_has_key(s0, k) implies alist_has_key(s, k) by {
            let i = choose|i: int| 0 <= i < s0.len() && s0[i].0 == k;
            assert(s[i].0 == k);
        }
        assert(alist_has_key(s, node)) by {
            assert(s[n].0 == node);
        }
        assert(alist_keys_distinct(s)) by {
            assert forall|i: int, j: int| 0 <= i < j < s.len() implies s[i].0 != s[j].0 by {
                if j < n {
                    assert(s0[i].0 != s0[j].0);
                } else {
                    assert(s[j].0 == node);
                    assert(s0[i].0 == s[i].0);
                    if s[i].0 == node {
                        assert(alist_has_key(s0, node));
                    }
                }
            }
        }
        // Neighbor lists: contents of each entry.
        assert forall|i: int| 0 <= i < n implies alist_index_of(s, s[i].0) == i by {
            lemma_index_of(s, i);
        }
        lemma_index_of(s, n);
        // Old entries keep no-dup lists; node not previously listed.
        assert forall|i: int| 0 <= i < s.len() implies seq_no_dups((#[trigger] s[i]).1@) by {
            if i < n {
                if su.contains(s0[i].0) {
                    assert(s[i].1@ == s0[i].1@.push(node));
                    assert(!s0[i].1@.contains(node)) by {
                        if s0[i].1@.contains(node) {
                            let p = choose|p: int|
                                0 <= p < s0[i].1@.len() && s0[i].1@[p] == node;
                            assert(alist_has_key(s0, s0[i].1@[p]));
                        }
                    }
                    assert forall|a: int, b: int|
                        0 <= a < b < s[i].1@.len() implies s[i].1@[a] != s[i].1@[b] by {
                        if b < s0[i].1@.len() {
                            assert(s0[i].1@[a] != s0[i].1@[b]);
                        } else {
                            assert(s[i].1@[b] == node);
                            assert(s[i].1@[a] == s0[i].1@[a]);
                            assert(s0[i].1@.contains(s0[i].1@[a]));
                        }
                    }
                }
            }
        }
        // Membership in each new list, expressed over the old lists.
        assert forall|i: int, x: i32| 0 <= i < n implies (#[trigger] s[i].1@.contains(x) <==> (
        s0[i].1@.contains(x) || (su.contains(s0[i].0) && x == node))) by {
            if su.contains(s0[i].0) {
                assert(s[i].1@ == s0[i].1@.push(node));
                if s[i].1@.contains(x) {
                    let p = choose|p: int| 0 <= p < s[i].1@.len() && s[i].1@[p] == x;
                    if p < s0[i].1@.len() {
                        assert(s0[i].1@.contains(x));
                    }
                }
                if s0[i].1@.contains(x) {
                    let p = choose|p: int| 0 <= p < s0[i].1@.len() && s0[i].1@[p] == x;
                    assert(s[i].1@[p] == x);
                }
                assert(s[i].1@[s0[i].1@.len() as int] == node);
            }
        }
        assert(alist_loop_free(s)) by {
            assert forall|i: int| 0 <= i < s.len() implies !(#[trigger] s[i].1@).contains(
                s[i].0,
            ) by {
                if i < n {
                    if s[i].1@.contains(s[i].0) {
                        assert(s0[i].1@.contains(s0[i].0) || (su.contains(s0[i].0) && s0[i].0
                            == node));
                        if s0[i].0 == node {
                            assert(alist_has_key(s0, node)) by {
                                lemma_index_of(s0, i);
                            }
                        }
                    }
                } else {
                    assert(s[i].1@ == su);
                }
            }
        }
        assert(alist_closed(s)) by {
            assert forall|i: int, p: int|
                0 <= i < s.len() && 0 <= p < s[i].1@.len() implies alist_has_key(
                s,
                #[trigger] s[i].1@[p],
            ) by {
                let x = s[i].1@[p];
                assert(s[i].1@.contains(x));
                if i < n {
                    if s0[i].1@.contains(x) {
                        let q = choose|q: int| 0 <= q < s0[i].1@.len() && s0[i].1@[q] == x;
                        assert(alist_has_key(s0, s0[i].1@[q]));
                    } else {
                        assert(x == node);
                    }
                } else {
                    assert(su.contains(x));
                    assert(alist_has_key(s0, x));
                }
            }
        }
        // Mutual membership.
        assert forall|i: int, p: int|
            0 <= i < s.len() && 0 <= p < s[i].1@.len() implies alist_neighbors(
            s,
            #[trigger] s[i].1@[p],
        ).contains(s[i].0) by {
            let x = s[i].1@[p];
            assert(s[i].1@.contains(x));
            if i < n {
                if s0[i].1@.contains(x) {
                    // Mutual already in the old list.
                    let q = choose|q: int| 0 <= q < s0[i].1@.len() && s0[i].1@[q] == x;
                    assert(alist_neighbors(s0, x).contains(s0[i].0));
                    let ix0 = alist_index_of(s0, x);
                    assert(0 <= ix0 < s0.len() && s0[ix0].0 == x) by {
                        assert(alist_has_key(s0, s0[i].1@[q]));
                    }
                    assert(s0[ix0].1@.contains(s0[i].0));
                    assert(alist_index_of(s, x) == ix0) by {
                        lemma_index_of(s, ix0);
                    }
                    assert(s[ix0].1@.contains(s0[i].0));
                    assert(s[i].0 == s0[i].0);
                } else {
                    // x is the fresh node: its list is su, and this key was
                    // touched, so it lies in su.
                    assert(x == node && su.contains(s0[i].0));
                    assert(alist_index_of(s, node) == n);
                    assert(s[n].1@ == su);
                }
            } else {
                // Entry of the fresh node: each su member's list now ends
                // with the node.
                assert(su.contains(x));
                let ix0 = alist_index_of(s0, x);
                assert(0 <= ix0 < s0.len() && s0[ix0].0 == x) by {
                    assert(alist_has_key(s0, x));
                }
                assert(alist_index_of(s, x) == ix0) by {
                    lemma_index_of(s, ix0);
                }
                assert(s[ix0].1@ == s0[ix0].1@.push(node));
                assert(s[ix0].1@[s0[ix0].1@.len() as int] == node);
                assert(s[ix0].1@.contains(node));
                assert(s[i].0 == node);
            }
        }
        // View equality with the abstract effect.
        let gv = alist_view(s0);
        let eff = graph_insert_effect(gv, node, seq_set(su));
        assert forall|k: i32| self@.contains_key(k) implies eff.contains_key(k) by {}
        assert forall|k: i32| eff.contains_key(k) implies self@.contains_key(k) by {}
        assert forall|k: i32| eff.contains_key(k) implies self@[k] =~= eff[k] by {
            if k == node {
                assert(alist_index_of(s, node) == n);
                assert(self@[k] == seq_set(su));
            } else {
                let i0 = alist_index_of(s0, k);
                assert(0 <= i0 < s0.len() && s0[i0].0 == k) by {
                    assert(alist_has_key(s0, k));
                }
                assert(alist_index_of(s, k) == i0) by {
                    lemma_index_of(s, i0);
                }
                assert(alist_index_of(s0, k) == i0) by {
                    lemma_index_of(s0, i0);
                }
                assert(gv[k] == seq_set(s0[i0].1@));
                assert forall|x: i32| self@[k].contains(x) implies eff[k].contains(x) by {
                    assert(s[i0].1@.contains(x));
                }
                assert forall|x: i32| eff[k].contains(x) implies self@[k].contains(x) by {
                    if seq_set(su).contains(k) && x == node {
                        assert(su.contains(k));
                        assert(s[i0].1@.contains(x));
                    } else {
                        assert(s0[i0].1@.contains(x));
                        assert(s[i0].1@.contains(x));
                    }
                }
            }
        }
    }

    /// Removes a node: its entry disappears and it is stripped from every
    /// remaining neighbor list. Fails when the node is absent, changing
    /// nothing.
    pub fn remove_node(&mut self, node: i32) -> (r: Result<(), MapError>)
        requires
            old(self).wf(),
        ensures
            final(self).wf(),
            match r {
                Ok(_) => {
                    &&& old(self)@.contains_key(node)
                    &&& final(self)@ == graph_remove_effect(old(self)@, node)
                },
                Err(MapError::MissingEntity) => {
                    &&& !old(self)@.contains_key(node)
                    &&& *final(self) == *old(self)
                },
                Err(_) => false,
            },
    {
        let at = match self.find_index(node) {
            Some(i) => i,
            None => {
                return Err(MapError::MissingEntity);
            },
        };
        let ghost s0 = self.adj@;
        proof {
            lemma_index_of(s0, at as int);
        }
        self.adj.remove(at);
        let ghost s1 = self.adj@;
        proof {
            assert forall|j: int| 0 <= j < s1.len() implies seq_no_dups(s1[j].1@) by {
                if j < at as int {
                    assert(s1[j] == s0[j]);
                    assert(seq_no_dups(s0[j].1@));
                } else {
                    assert(s1[j] == s0[j + 1]);
                    assert(seq_no_dups(s0[j + 1].1@));
                }
            }
        }
        let mut i: usize = 0;
        while i < self.adj.len()
            invariant
                i <= self.adj@.len(),
                self.adj@.len() == s1.len(),
                forall|j: int| 0 <= j < s1.len() ==> (#[trigger] self.adj@[j]).0 == s1[j].0,
                forall|j: int| 0 <= j < s1.len() ==> seq_no_dups(s1[j].1@),
                forall|j: int|
                    0 <= j < i ==> seq_no_dups((#[trigger] self.adj@[j]).1@) && forall|y: i32|
                        self.adj@[j].1@.contains(y) == (s1[j].1@.contains(y) && y != node),
                forall|j: int| i <= j < s1.len() ==> (#[trigger] self.adj@[j]).1@ == s1[j].1@,
            decreases self.adj@.len() - i,
        {
            proof {
                assert(seq_no_dups(self.adj@[i as int].1@));
            }
            vec_remove_value(&mut self.adj[i].1, node);
            i = i + 1;
        }
        proof {
            self.lemma_remove_node_post(s0, node, at as int);
        }
        Ok(())
    }

    /// Establishes well-formedness and the view effect after the
    /// representation change performed by `remove_node`.
    proof fn lemma_remove_node_post(self, s0: Seq<(i32, Vec<i32>)>, node: i32, at: int)
        requires
            alist_wf(s0),
            0 <= at < s0.len(),
            s0[at].0 == node,
            self.adj@.len() == s0.len() - 1,
            forall|j: int|
                0 <= j < self.adj@.len() ==> (#[trigger] self.adj@[j]).0 == s0.remove(at)[j].0,
            forall|j: int|
                0 <= j < self.adj@.len() ==> seq_no_dups((#[trigger] self.adj@[j]).1@) && forall|
                    y: i32,
                |
                    self.adj@[j].1@.contains(y) == (s0.remove(at)[j].1@.contains(y) && y != node),
        ensures
            self.wf(),
            self@ =~~= graph_remove_effect(alist_view(s0), node),
    {
        let s = self.adj@;
        let s1 = s0.remove(at);
        // Entry correspondence between s1 and s0.
        assert forall|j: int| 0 <= j < s1.len() implies #[trigger] s1[j] == if j < at {
            s0[j]
        } else {
            s0[j + 1]
        } by {}
        assert forall|k: i32| alist_has_key(s, k) implies alist_has_key(s0, k) && k != node by {
            let i = choose|i: int| 0 <= i < s.len() && s[i].0 == k;
            let i0: int = if i < at {
                i
            } else {
                i + 1
            };
            assert(s0[i0].0 == k);
            if k == node {
                assert(alist_keys_distinct(s0));
                if i0 != at {
                    assert(s0[i0].0 != s0[at].0 || s0[at].0 != s0[i0].0);
                }
            }
        }
        assert forall|k: i32| alist_has_key(s0, k) && k != node implies alist_has_key(s, k) by {
            let i0 = choose|i: int| 0 <= i < s0.len() && s0[i].0 == k;
            if i0 < at {
                assert(s[i0].0 == k);
            } else {
                assert(i0 != at);
                assert(s[i0 - 1].0 == s1[i0 - 1].0);
                assert(s1[i0 - 1] == s0[i0]);
            }
        }
        assert(alist_keys_distinct(s)) by {
            assert forall|i: int, j: int| 0 <= i < j < s.len() implies s[i].0 != s[j].0 by {
                let i0: int = if i < at {
                    i
                } else {
                    i + 1
                };
                let j0: int = if j < at {
                    j
                } else {
                    j + 1
                };
                assert(s[i].0 == s0[i0].0 && s[j].0 == s0[j0].0);
                assert(s0[i0].0 != s0[j0].0);
            }
        }
        assert forall|i: int| 0 <= i < s.len() implies alist_index_of(s, s[i].0) == i by {
            lemma_index_of(s, i);
        }
        // Pre-removal position of every surviving entry.
        assert forall|i: int| 0 <= i < s.len() implies (#[trigger] s[i]).0 == s0[
            if i < at {
                i
            } else {
                i + 1
            }
        ].0 by {
            let i0: int = if i < at {
                i
            } else {
                i + 1
            };
            assert(s1[i] == s0[i0]);
        }
        assert forall|i: int, y: i32| 0 <= i < s.len() implies #[trigger] s[i].1@.contains(y) == (
        s0[
            if i < at {
                i
            } else {
                i + 1
            }
        ].1@.contains(y) && y != node) by {
            let i0: int = if i < at {
                i
            } else {
                i + 1
            };
            assert(s1[i] == s0[i0]);
        }
        assert(alist_loop_free(s)) by {
            assert forall|i: int| 0 <= i < s.len() implies !(#[trigger] s[i].1@).contains(
                s[i].0,
            ) by {
                let i0: int = if i < at {
                    i
                } else {
                    i + 1
                };
                if s[i].1@.contains(s[i].0) {
                    assert(s0[i0].1@.contains(s0[i0].0));
                }
            }
        }
        assert(alist_closed(s)) by {
            assert forall|i: int, p: int|
                0 <= i < s.len() && 0 <= p < s[i].1@.len() implies alist_has_key(
                s,
                #[trigger] s[i].1@[p],
            ) by {
                let x = s[i].1@[p];
                assert(s[i].1@.contains(x));
                let i0: int = if i < at {
                    i
                } else {
                    i + 1
                };
                assert(s0[i0].1@.contains(x) && x != node);
                let q = choose|q: int| 0 <= q < s0[i0].1@.len() && s0[i0].1@[q] == x;
                assert(alist_has_key(s0, s0[i0].1@[q]));
            }
        }
        assert forall|i: int, p: int|
            0 <= i < s.len() && 0 <= p < s[i].1@.len() implies alist_neighbors(
            s,
            #[trigger] s[i].1@[p],
        ).contains(s[i].0) by {
            let x = s[i].1@[p];
            assert(s[i].1@.contains(x));
            let i0: int = if i < at {
                i
            } else {
                i + 1
            };
            assert(s0[i0].1@.contains(x) && x != node);
            // Mutual membership in s0, transported to s.
            let q = choose|q: int| 0 <= q < s0[i0].1@.len() && s0[i0].1@[q] == x;
            assert(alist_neighbors(s0, s0[i0].1@[q]).contains(s0[i0].0));
            let jx0 = alist_index_of(s0, x);
            assert(0 <= jx0 < s0.len() && s0[jx0].0 == x) by {
                assert(alist_has_key(s0, s0[i0].1@[q]));
            }
            assert(s0[jx0].1@.contains(s0[i0].0));
            assert(jx0 != at);
            let jx: int = if jx0 < at {
                jx0
            } else {
                jx0 - 1
            };
            assert(s[jx].0 == s0[jx0].0);
            assert(alist_index_of(s, x) == jx) by {
                lemma_index_of(s, jx);
            }
            assert(s[i].0 == s0[i0].0 && s[i].0 != node);
            assert(s[jx].1@.contains(s0[i0].0));
        }
        // View equality with the abstract effect.
        let gv = alist_view(s0);
        let eff = graph_remove_effect(gv, node);
        assert forall|k: i32| eff.contains_key(k) implies self@[k] =~= eff[k] by {
            let i = alist_index_of(s, k);
            assert(0 <= i < s.len() && s[i].0 == k) by {
                assert(alist_has_key(s, k));
            }
            let i0: int = if i < at {
                i
            } else {
                i + 1
            };
            assert(alist_index_of(s0, k) == i0) by {
                lemma_index_of(s0, i0);
            }
            assert(gv[k] == seq_set(s0[i0].1@));
            assert forall|y: i32| self@[k].contains(y) <==> (gv[k].contains(y) && y != node) by {
                assert(s[i].1@.contains(y) == (s0[i0].1@.contains(y) && y != node));
            }
        }
    }
}

/// Whether the vector holds the given value.
fn vec_has(v: &Vec<i32>, x: i32) -> (r: bool)
    ensures
        r == v@.contains(x),
{
    let mut i: usize = 0;
    while i < v.len()
        invariant
            i <= v@.len(),
            forall|j: int| 0 <= j < i ==> v@[j] != x,
        decreases v@.len() - i,
    {
        if v[i] == x {
            return true;
        }
        i = i + 1;
    }
    false
}

/// Removes the (single) occurrence of a value from a duplicate-free
/// vector, when present.
fn vec_remove_value(v: &mut Vec<i32>, x: i32)
    requires
        seq_no_dups(old(v)@),
    ensures
        seq_no_dups(final(v)@),
        forall|y: i32| final(v)@.contains(y) == (old(v)@.contains(y) && y != x),
{
    let ghost v0 = v@;
    let mut i: usize = 0;
    while i < v.len()
        invariant
            i <= v@.len(),
            v@ == v0,
            forall|j: int| 0 <= j < i ==> v@[j] != x,
        decreases v@.len() - i,
    {
        if v[i] == x {
            v.remove(i);
            proof {
                assert forall|y: i32| v@.contains(y) implies (v0.contains(y) && y != x) by {
                    let j = choose|j: int| 0 <= j < v@.len() && v@[j] == y;
                    if j < i {
                        assert(v0[j] == y);
                    } else {
                        assert(v0[j + 1] == y);
                    }
                    if y == x {
                        let j0: int = if j < i {
                            j
                        } else {
                            j + 1
                        };
                        assert(v0[j0] == x && v0[i as int] == x && j0 != i);
                    }
                }
                assert forall|y: i32| v0.contains(y) && y != x implies v@.contains(y) by {
                    let j = choose|j: int| 0 <= j < v0.len() && v0[j] == y;
                    if j < i {
                        assert(v@[j] == y);
                    } else {
                        assert(j != i);
                        assert(v@[j - 1] == y);
                    }
                }
                assert forall|a: int, b: int| 0 <= a < b < v@.len() implies v@[a] != v@[b] by {
                    let a0: int = if a < i {
                        a
                    } else {
                        a + 1
                    };
                    let b0: int = if b < i {
                        b
                    } else {
                        b + 1
                    };
                    assert(v0[a0] != v0[b0]);
                }
            }
            return ;
        }
        i = i + 1;
    }
    proof {
        assert forall|y: i32| v@.contains(y) implies y != x by {
            let j = choose|j: int| 0 <= j < v@.len() && v@[j] == y;
        }
    }
}

/// The sentinel distance of a node the search has not reached.
pub const INFINITY: i32 = i32::MAX;

/// Sum of the recorded distances over the graph's entries; the
/// termination measure of the search, since every queue push strictly
/// lowers one recorded distance.
pub open spec fn dist_total(s: Seq<(i32, Vec<i32>)>, dist: Map<i32, i32>) -> int
    decreases s.len(),
{
    if s.len() == 0 {
        0
    } else {
        dist[s.last().0] + dist_total(s.drop_last(), dist)
    }
}

/// Two distance mappings that agree on every key of the list have the
/// same total.
proof fn lemma_dist_total_agree(s: Seq<(i32, Vec<i32>)>, d1: Map<i32, i32>, d2: Map<i32, i32>)
    requires
        forall|j: int| 0 <= j < s.len() ==> d1[(#[trigger] s[j]).0] == d2[s[j].0],
    ensures
        dist_total(s, d1) == dist_total(s, d2),
    decreases s.len(),
{
    if s.len() > 0 {
        lemma_dist_total_agree(s.drop_last(), d1, d2);
    }
}

/// A distance total over non-negative entries is non-negative.
proof fn lemma_dist_total_nonneg(s: Seq<(i32, Vec<i32>)>, d: Map<i32, i32>)
    requires
        forall|j: int| 0 <= j < s.len() ==> d[(#[trigger] s[j]).0] >= 0,
    ensures
        dist_total(s, d) >= 0,
    decreases s.len(),
{
    if s.len() > 0 {
        lemma_dist_total_nonneg(s.drop_last(), d);
    }
}

/// Lowering the entry of one present key lowers the total by exactly the
/// same amount.
proof fn lemma_dist_total_update(s: Seq<(i32, Vec<i32>)>, d: Map<i32, i32>, v: i32, x: i32)
    requires
        alist_keys_distinct(s),
        alist_has_key(s, v),
    ensures
        dist_total(s, d.insert(v, x)) == dist_total(s, d) + x - d[v],
    decreases s.len(),
{
    let last = s.last();
    let rest = s.drop_last();
    if last.0 == v {
        lemma_index_of(s, s.len() - 1);
        assert(!alist_has_key(rest, v)) by {
            if alist_has_key(rest, v) {
                let i = choose|i: int| 0 <= i < rest.len() && rest[i].0 == v;
                assert(s[i].0 == v);
                lemma_index_of(s, i);
            }
        }
        assert(dist_total(rest, d.insert(v, x)) == dist_total(rest, d)) by {
            lemma_dist_total_agree(rest, d.insert(v, x), d);
        }
    } else {
        assert(alist_has_key(rest, v)) by {
            let i = choose|i: int| 0 <= i < s.len() && s[i].0 == v;
            assert(rest[i].0 == v);
        }
        lemma_dist_total_update(rest, d, v, x);
    }
}

/// Stability of a distance mapping under relaxation: wherever a reached
/// node has a neighbor, the neighbor is weighted and its recorded
/// distance is no worse than stepping from the reached node.
pub open spec fn dijkstra_stable(g: Map<i32, Set<i32>>, w: Map<i32, i32>, dist: Map<i32, i32>) -> bool {
    forall|a: i32, b: i32|
        g.contains_key(a) && #[trigger] g[a].contains(b) && dist[a] < INFINITY ==> w.contains_key(
            b,
        ) && dist[b] <= dist[a] + w[b]
}

/// A walk through the adjacency mapping: non-empty, every node present,
/// consecutive nodes adjacent.
pub open spec fn is_path(g: Map<i32, Set<i32>>, p: Seq<i32>) -> bool {
    &&& p.len() >= 1
    &&& forall|i: int| 0 <= i < p.len() ==> g.contains_key(#[trigger] p[i])
    &&& forall|i: int| 0 <= i < p.len() - 1 ==> (#[trigger] g[p[i]]).contains(p[i + 1])
}

/// Accumulated cost of a walk: the weight of every node entered after
/// the first.
pub open spec fn path_cost(p: Seq<i32>, w: Map<i32, i32>) -> int
    decreases p.len(),
{
    if p.len() <= 1 {
        0
    } else {
        path_cost(p.drop_last(), w) + w[p.last()]
    }
}

/// Whether some walk leads from `source` to `v`.
pub open spec fn graph_reachable(g: Map<i32, Set<i32>>, source: i32, v: i32) -> bool {
    exists|p: Seq<i32>| is_path(g, p) && p[0] == source && p.last() == v
}

/// Whether repeatedly stepping to the recorded predecessor, starting at
/// `v`, arrives at `source` within `n` steps.
pub open spec fn prev_steps_to_source(prev: Map<i32, i32>, source: i32, v: i32, n: nat) -> bool
    decreases n,
{
    if v == source {
        true
    } else if n == 0 {
        false
    } else {
        prev.contains_key(v) && prev_steps_to_source(prev, source, prev[v], (n - 1) as nat)
    }
}

/// A predecessor mapping whose entries strictly descend along some rank,
/// except where they point at the source directly, leads every key back
/// to the source in finitely many steps.
proof fn lemma_prev_rank_reaches_source(
    prev: Map<i32, i32>,
    source: i32,
    rank: Map<i32, int>,
    v: i32,
)
    requires
        forall|w: i32| #[trigger] prev.contains_key(w) ==> rank.contains_key(w) && rank[w] >= 0,
        forall|w: i32|
            #[trigger] prev.contains_key(w) ==> (prev[w] == source || (prev.contains_key(prev[w])
                && rank[prev[w]] < rank[w])),
        prev.contains_key(v),
    ensures
        exists|n: nat| prev_steps_to_source(prev, source, v, n),
    decreases rank[v],
{
    if prev[v] == source {
        assert(prev_steps_to_source(prev, source, source, 0));
        assert(prev_steps_to_source(prev, source, v, 1));
    } else {
        lemma_prev_rank_reaches_source(prev, source, rank, prev[v]);
        let n0 = choose|n: nat| prev_steps_to_source(prev, source, prev[v], n);
        assert(prev_steps_to_source(prev, source, v, n0 + 1));
    }
}

/// Whether some walk from `source` to `v` costs exactly `c`.
pub open spec fn reaches_with_cost(
    g: Map<i32, Set<i32>>,
    w: Map<i32, i32>,
    source: i32,
    v: i32,
    c: int,
) -> bool {
    exists|p: Seq<i32>|
        is_path(g, p) && p[0] == source && p.last() == v && path_cost(p, w) == c
}

/// Law: a stable distance mapping that is zero at the source never
/// overestimates: the recorded distance of a walk's endpoint is at most
/// the walk's accumulated cost. Together with the recorded predecessor
/// witnesses this pins the search's result to the shortest distances.
pub proof fn lemma_stable_dist_lower_bound(
    g: Map<i32, Set<i32>>,
    w: Map<i32, i32>,
    dist: Map<i32, i32>,
    source: i32,
    p: Seq<i32>,
)
    requires
        dijkstra_stable(g, w, dist),
        dist[source] == 0,
        forall|k: i32| w.contains_key(k) ==> #[trigger] w[k] >= 0,
        forall|k: i32| g.contains_key(k) ==> #[trigger] w.contains_key(k),
        forall|k: i32| g.contains_key(k) ==> 0 <= #[trigger] dist[k] <= INFINITY,
        is_path(g, p),
        p[0] == source,
    ensures
        dist[p.last()] <= path_cost(p, w),
    decreases p.len(),
{
    if p.len() == 1 {
        assert(p.last() == source);
    } else {
        let q = p.drop_last();
        let a = q.last();
        let b = p.last();
        assert(is_path(g, q)) by {
            assert(forall|i: int| 0 <= i < q.len() ==> q[i] == p[i]);
        }
        lemma_stable_dist_lower_bound(g, w, dist, source, q);
        assert(g[p[p.len() - 2]].contains(p[p.len() - 1]));
        assert(g[a].contains(b));
        if dist[a] < INFINITY {
            assert(w.contains_key(b) && dist[b] <= dist[a] + w[b]);
        } else {
            // The prefix already costs at least the sentinel, and the last
            // step's weight cannot lower it.
            assert(dist[a] == INFINITY);
            assert(path_cost(q, w) >= INFINITY);
            assert(w.contains_key(b));
        }
    }
}

/// Law: inserting a fresh node a whose neighbor set is ns makes a a
/// mutual member of each listed neighbor's adjacency set, and removing a
/// again restores the adjacency mapping exactly.
pub proof fn lemma_insert_remove_restores(g: Map<i32, Set<i32>>, a: i32, ns: Set<i32>)
    requires
        adjacency_wf(g),
        !g.contains_key(a),
        forall|n: i32| ns.contains(n) ==> g.contains_key(n),
    ensures
        forall|n: i32| ns.contains(n) ==> graph_insert_effect(g, a, ns)[n].contains(a),
        graph_remove_effect(graph_insert_effect(g, a, ns), a) =~~= g,
{
    let g1 = graph_insert_effect(g, a, ns);
    let g2 = graph_remove_effect(g1, a);
    assert forall|k: i32| g2.contains_key(k) implies g2[k] =~= g[k] by {
        // No existing neighbor set mentions the fresh node, so stripping
        // it undoes the insertion exactly.
        assert(!g[k].contains(a)) by {
            if g[k].contains(a) {
                assert(g.contains_key(a));
            }
        }
    }
}

/// Position of the entry for `k` in an association list.
fn alist_find(s: &Vec<(i32, Vec<i32>)>, k: i32) -> (r: Option<usize>)
    ensures
        match r {
            Some(i) => i < s@.len() && s@[i as int].0 == k,
            None => !alist_has_key(s@, k),
        },
{
    let mut i: usize = 0;
    while i < s.len()
        invariant
            i <= s@.len(),
            forall|j: int| 0 <= j < i ==> s@[j].0 != k,
        decreases s@.len() - i,
    {
        if s[i].0 == k {
            return Some(i);
        }
        i = i + 1;
    }
    None
}

/// Single-source shortest path over an adjacency mapping, with the cost
/// charged for entering each node rather than per edge. Distances start
/// at the `INFINITY` sentinel except the source at zero; a pending-node
/// queue repeatedly relaxes every neighbor of a pending node until
/// nothing improves. Returns the distance mapping and the predecessor
/// mapping; nodes the search never reached keep the sentinel and have no
/// predecessor. Fails when a relaxed node has no weight entry.
pub fn dijkstra(graph: &Vec<(i32, Vec<i32>)>, source: i32, weights: &HashMap<i32, i32>) -> (r:
    Result<(HashMap<i32, i32>, HashMap<i32, i32>), MapError>)
    requires
        alist_keys_distinct(graph@),
        alist_closed(graph@),
        alist_has_key(graph@, source),
        forall|k: i32| weights@.contains_key(k) ==> #[trigger] weights@[k] >= 0,
    ensures
        (forall|k: i32| alist_has_key(graph@, k) ==> weights@.contains_key(k)) ==> r.is_ok(),
        (forall|a: i32, b: i32|
            graph_reachable(alist_view(graph@), source, a) && #[trigger] alist_view(
                graph@,
            )[a].contains(b) ==> weights@.contains_key(b)) ==> r.is_ok(),
        match r {
            Ok(dp) => {
                &&& forall|k: i32|
                    #[trigger] dp.0@.contains_key(k) <==> alist_has_key(graph@, k)
                &&& dp.0@[source] == 0
                &&& forall|k: i32| dp.0@.contains_key(k) ==> 0 <= #[trigger] dp.0@[k] <= INFINITY
                &&& dijkstra_stable(alist_view(graph@), weights@, dp.0@)
                &&& forall|v: i32|
                    dp.0@.contains_key(v) && dp.0@[v] < INFINITY ==> #[trigger] reaches_with_cost(
                        alist_view(graph@),
                        weights@,
                        source,
                        v,
                        dp.0@[v] as int,
                    )
                &&& forall|v: i32|
                    #[trigger] dp.1@.contains_key(v) <==> (alist_has_key(graph@, v) && v != source
                        && dp.0@[v] < INFINITY)
                &&& forall|v: i32|
                    #[trigger] dp.1@.contains_key(v) ==> {
                        &&& alist_has_key(graph@, dp.1@[v])
                        &&& alist_view(graph@)[dp.1@[v]].contains(v)
                        &&& weights@.contains_key(v)
                        &&& dp.0@[v] == dp.0@[dp.1@[v]] + weights@[v]
                    }
                &&& forall|v: i32|
                    #[trigger] dp.1@.contains_key(v) ==> exists|n: nat|
                        prev_steps_to_source(dp.1@, source, v, n)
            },
            Err(e) => {
                &&& e == MapError::MissingEntity
                &&& exists|a: i32, b: i32|
                    alist_has_key(graph@, a) && graph_reachable(alist_view(graph@), source, a)
                        && #[trigger] alist_view(graph@)[a].contains(b) && !weights@.contains_key(
                        b,
                    )
            },
        },
{
    let ghost gs = graph@;
    let ghost gv = alist_view(graph@);

    // Every node starts at the sentinel distance.
    let mut dist: HashMap<i32, i32> = HashMap::new();
    let mut i: usize = 0;
    while i < graph.len()
        invariant
            i <= gs.len(),
            forall|k: i32|
                #[trigger] dist@.contains_key(k) <==> exists|j: int|
                    0 <= j < i && (#[trigger] gs[j]).0 == k,
            forall|k: i32| #[trigger] dist@.contains_key(k) ==> dist@[k] == INFINITY,
        decreases gs.len() - i,
    {
        dist.insert(graph[i].0, INFINITY);
        i = i + 1;
    }
    proof {
        assert forall|k: i32| #[trigger] dist@.contains_key(k) <==> alist_has_key(gs, k) by {}
    }
    let ghost dinit = dist@;
    dist.insert(source, 0);

    let mut prev: HashMap<i32, i32> = HashMap::new();
    let mut queue: Vec<i32> = Vec::new();
    queue.push(source);

    // Ghost bookkeeping for the predecessor chains: each update stamps the
    // updated node with a fresh, ever-growing step number.
    let ghost mut rank: Map<i32, int> = Map::empty();
    let ghost mut step: int = 0;

    proof {
        assert(queue@[0] == source);
        assert(queue@.contains(source));
        assert forall|v: i32| alist_has_key(gs, v) && v != source implies dist@[v]
            == INFINITY by {
            assert(dinit.contains_key(v));
            assert(dist@[v] == dinit[v]);
        }
        // The one-node walk witnesses the source's zero distance.
        assert(reaches_with_cost(gv, weights@, source, source, 0)) by {
            let p0 = seq![source];
            assert(p0.len() == 1 && p0[0] == source && p0.last() == source);
            assert(gv.contains_key(source));
            assert(is_path(gv, p0));
            assert(path_cost(p0, weights@) == 0);
        }
    }
    while queue.len() > 0
        invariant
            forall|k: i32| #[trigger] dist@.contains_key(k) <==> alist_has_key(gs, k),
            forall|k: i32| #[trigger] dist@.contains_key(k) ==> 0 <= dist@[k] <= INFINITY,
            dist@[source] == 0,
            forall|j: int|
                0 <= j < queue@.len() ==> alist_has_key(gs, #[trigger] queue@[j]) && dist@[queue@[j]]
                    < INFINITY,
            forall|a: i32, b: i32|
                alist_has_key(gs, a) && #[trigger] gv[a].contains(b) && dist@[a] < INFINITY
                    ==> queue@.contains(a) || (weights@.contains_key(b) && dist@[b] <= dist@[a]
                    + weights@[b]),
            forall|v: i32|
                dist@.contains_key(v) && dist@[v] < INFINITY ==> #[trigger] reaches_with_cost(
                    gv,
                    weights@,
                    source,
                    v,
                    dist@[v] as int,
                ),
            forall|v: i32|
                #[trigger] prev@.contains_key(v) <==> (alist_has_key(gs, v) && v != source
                    && dist@[v] < INFINITY),
            forall|v: i32|
                #[trigger] prev@.contains_key(v) ==> {
                    &&& alist_has_key(gs, prev@[v])
                    &&& gv[prev@[v]].contains(v)
                    &&& weights@.contains_key(v)
                    &&& dist@[v] >= dist@[prev@[v]] + weights@[v]
                },
            0 <= step,
            forall|v: i32|
                #[trigger] prev@.contains_key(v) ==> rank.contains_key(v) && 0 <= rank[v] < step,
            forall|v: i32|
                #[trigger] prev@.contains_key(v) ==> (prev@[v] == source || rank[prev@[v]]
                    < rank[v] || dist@[v] > dist@[prev@[v]] + weights@[v]),
        decreases dist_total(gs, dist@), queue@.len(),
    {
        let ghost sum0 = dist_total(gs, dist@);
        let ghost qlen0 = queue@.len();
        let ghost q0 = queue@;
        let u = queue.pop().unwrap();
        proof {
            assert(u == q0[qlen0 - 1]);
            assert(alist_has_key(gs, u));
            assert forall|a: i32| q0.contains(a) && a != u implies queue@.contains(a) by {
                let idx = choose|idx: int| 0 <= idx < q0.len() && q0[idx] == a;
                assert(queue@[idx] == a);
            }
        }
        let j: usize = match alist_find(graph, u) {
            Some(idx) => idx,
            None => {
                proof {
                    assert(false);
                }
                0
            },
        };
        proof {
            lemma_index_of(gs, j as int);
        }
        let mut p: usize = 0;
        while p < graph[j].1.len()
            invariant
                p <= gs[j as int].1@.len(),
                forall|k: i32| #[trigger] dist@.contains_key(k) <==> alist_has_key(gs, k),
                forall|k: i32| #[trigger] dist@.contains_key(k) ==> 0 <= dist@[k] <= INFINITY,
                dist@[source] == 0,
                forall|jj: int|
                    0 <= jj < queue@.len() ==> alist_has_key(gs, #[trigger] queue@[jj])
                        && dist@[queue@[jj]] < INFINITY,
                dist@[u] < INFINITY,
                forall|a: i32, b: i32|
                    alist_has_key(gs, a) && a != u && #[trigger] gv[a].contains(b) && dist@[a]
                        < INFINITY ==> queue@.contains(a) || (weights@.contains_key(b) && dist@[b]
                        <= dist@[a] + weights@[b]),
                forall|q: int|
                    0 <= q < p ==> queue@.contains(u) || (weights@.contains_key(
                        #[trigger] gs[j as int].1@[q],
                    ) && dist@[gs[j as int].1@[q]] <= dist@[u] + weights@[gs[j as int].1@[q]]),
                forall|v: i32|
                    dist@.contains_key(v) && dist@[v] < INFINITY ==> #[trigger] reaches_with_cost(
                        gv,
                        weights@,
                        source,
                        v,
                        dist@[v] as int,
                    ),
                forall|v: i32|
                    #[trigger] prev@.contains_key(v) <==> (alist_has_key(gs, v) && v != source
                        && dist@[v] < INFINITY),
                forall|v: i32|
                    #[trigger] prev@.contains_key(v) ==> {
                        &&& alist_has_key(gs, prev@[v])
                        &&& gv[prev@[v]].contains(v)
                        &&& weights@.contains_key(v)
                        &&& dist@[v] >= dist@[prev@[v]] + weights@[v]
                    },
                0 <= step,
                forall|v: i32|
                    #[trigger] prev@.contains_key(v) ==> rank.contains_key(v) && 0 <= rank[v]
                        < step,
                forall|v: i32|
                    #[trigger] prev@.contains_key(v) ==> (prev@[v] == source || rank[prev@[v]]
                        < rank[v] || dist@[v] > dist@[prev@[v]] + weights@[v]),
                dist_total(gs, dist@) < sum0 || (dist_total(gs, dist@) == sum0 && queue@.len()
                    == qlen0 - 1),
            decreases gs[j as int].1@.len() - p,
        {
            let v = graph[j].1[p];
            proof {
                assert(gs[j as int].1@.contains(v));
                assert(alist_has_key(gs, v));
                assert(gv[u] == alist_neighbors(gs, u));
                assert(gv[u].contains(v));
            }
            let wv: i32 = match weights.get(&v) {
                Some(w) => *w,
                None => {
                    proof {
                        assert(alist_has_key(gs, u) && gv[u].contains(v)
                            && !weights@.contains_key(v));
                        // The popped node carries a finite distance, so the
                        // walk realizing it shows the gap is reachable.
                        assert(dist@.contains_key(u) && dist@[u] < INFINITY);
                        assert(reaches_with_cost(gv, weights@, source, u, dist@[u] as int));
                        let pw = choose|p: Seq<i32>|
                            is_path(gv, p) && p[0] == source && p.last() == u && path_cost(
                                p,
                                weights@,
                            ) == dist@[u] as int;
                        assert(graph_reachable(gv, source, u));
                    }
                    return Err(MapError::MissingEntity);
                },
            };
            let du: i32 = *dist.get(&u).unwrap();
            let dv: i32 = *dist.get(&v).unwrap();
            if (du as i64) + (wv as i64) < (dv as i64) {
                let ghost dist0 = dist@;
                proof {
                    // Extending the walk that realizes dist[u] by the edge
                    // to v realizes the improved distance.
                    assert(weights@.contains_key(v) && weights@[v] == wv && wv >= 0);
                    assert(dist@[u] == du && dist@[v] == dv && dv <= INFINITY);
                    assert(du < INFINITY);
                    assert(reaches_with_cost(gv, weights@, source, u, dist@[u] as int));
                    let pu = choose|p: Seq<i32>|
                        is_path(gv, p) && p[0] == source && p.last() == u && path_cost(
                            p,
                            weights@,
                        ) == dist@[u];
                    let pv = pu.push(v);
                    assert(pv.last() == v && pv[0] == source);
                    assert(pv.drop_last() =~= pu);
                    assert(is_path(gv, pv)) by {
                        assert(forall|ii: int| 0 <= ii < pu.len() ==> pv[ii] == pu[ii]);
                        assert(gv.contains_key(v));
                        assert forall|ii: int| 0 <= ii < pv.len() - 1 implies (
                        #[trigger] gv[pv[ii]]).contains(pv[ii + 1]) by {
                            if ii < pu.len() - 1 {
                                assert(gv[pu[ii]].contains(pu[ii + 1]));
                            } else {
                                assert(pv[ii] == u && pv[ii + 1] == v);
                            }
                        }
                    }
                    assert(path_cost(pv, weights@) == dist@[u] + weights@[v]);
                    assert(reaches_with_cost(gv, weights@, source, v, du + wv));
                }
                let ghost prev0 = prev@;
                let ghost rank0 = rank;
                let ghost step0 = step;
                let alt: i32 = ((du as i64) + (wv as i64)) as i32;
                dist.insert(v, alt);
                prev.insert(v, u);
                let ghost q1 = queue@;
                queue.push(v);
                proof {
                    rank = rank.insert(v, step);
                    step = step + 1;
                    lemma_dist_total_update(gs, dist0, v, alt);
                    assert(v != source);
                    // A self-improvement is impossible with a non-negative
                    // weight, so the stamped predecessor is another node.
                    assert(v != u);
                    assert forall|w: i32| #[trigger] prev@.contains_key(w) implies rank.contains_key(
                        w,
                    ) && 0 <= rank[w] < step by {
                        if w == v {
                            assert(rank[v] == step0 && step == step0 + 1);
                        } else {
                            assert(prev0.contains_key(w));
                            assert(rank0.contains_key(w) && 0 <= rank0[w] < step0);
                            assert(rank[w] == rank0[w]);
                        }
                    }
                    assert forall|w: i32| #[trigger] prev@.contains_key(w) implies (prev@[w]
                        == source || rank[prev@[w]] < rank[w] || dist@[w] > dist@[prev@[w]]
                        + weights@[w]) by {
                        if w == v {
                            if u != source {
                                assert(prev0.contains_key(u));
                                assert(rank0.contains_key(u) && rank0[u] < step0);
                                assert(rank[u] == rank0[u] && rank[v] == step0);
                            }
                        } else {
                            assert(prev@[w] == prev0[w] && dist@[w] == dist0[w] && rank[w]
                                == rank0[w]);
                            if prev0[w] == v {
                                // This node's recorded step predates the
                                // improvement, leaving its relaxation pending.
                                assert(dist0[w] >= dist0[v] + weights@[w]);
                                assert(dist@[v] < dist0[v]);
                            } else {
                                assert(dist@[prev@[w]] == dist0[prev0[w]]);
                                assert(rank[prev@[w]] == rank0[prev0[w]]);
                            }
                        }
                    }
                    assert(queue@[queue@.len() - 1] == v);
                    assert(queue@.contains(v));
                    assert forall|a: i32| q1.contains(a) implies queue@.contains(a) by {
                        let idx = choose|idx: int| 0 <= idx < q1.len() && q1[idx] == a;
                        assert(queue@[idx] == a);
                    }
                    assert forall|x: i32|
                        dist@.contains_key(x) && dist@[x] < INFINITY implies reaches_with_cost(
                        gv,
                        weights@,
                        source,
                        x,
                        dist@[x] as int,
                    ) by {
                        if x == v {
                            assert(dist@[x] == du + wv);
                        } else {
                            assert(dist@[x] == dist0[x]);
                            assert(reaches_with_cost(gv, weights@, source, x, dist0[x] as int));
                        }
                    }
                }
            }
            p = p + 1;
        }
        proof {
            // All edges of the popped node are now relaxed (or it was
            // pushed again), so the relaxation invariant holds for it too.
            assert forall|b: i32|
                #[trigger] gv[u].contains(b) && dist@[u] < INFINITY && !queue@.contains(
                    u,
                ) implies weights@.contains_key(b) && dist@[b] <= dist@[u] + weights@[b] by {
                assert(gv[u] == alist_neighbors(gs, u));
                assert(gs[j as int].1@.contains(b));
                let q = choose|q: int| 0 <= q < gs[j as int].1@.len() && gs[j as int].1@[q] == b;
                assert(0 <= q < gs[j as int].1@.len() && gs[j as int].1@[q] == b);
            }
            assert forall|jj: int| 0 <= jj < gs.len() implies dist@[(#[trigger] gs[jj]).0]
                >= 0 by {
                assert(alist_has_key(gs, gs[jj].0));
                assert(dist@.contains_key(gs[jj].0));
            }
            lemma_dist_total_nonneg(gs, dist@);
        }
    }
    proof {
        assert forall|a: i32, b: i32|
            alist_has_key(gs, a) && #[trigger] gv[a].contains(b) && dist@[a]
                < INFINITY implies weights@.contains_key(b) && dist@[b] <= dist@[a]
            + weights@[b] by {
            assert(!queue@.contains(a)) by {
                if queue@.contains(a) {
                    let idx = choose|idx: int| 0 <= idx < queue@.len() && queue@[idx] == a;
                }
            }
        }
        assert(dijkstra_stable(gv, weights@, dist@));
        assert forall|v: i32| #[trigger] prev@.contains_key(v) implies dist@[v] == dist@[prev@[v]]
            + weights@[v] by {
            let a = prev@[v];
            assert(dist@[v] >= dist@[a] + weights@[v]);
            assert(weights@[v] >= 0);
            assert(dist@[a] < INFINITY);
            assert(gv[a].contains(v));
        }
        // With the queue drained no relaxation is pending, so the stamped
        // steps strictly descend along every predecessor edge and each
        // chain walks back to the source.
        assert forall|v: i32| #[trigger] prev@.contains_key(v) implies (prev@[v] == source || (
        prev@.contains_key(prev@[v]) && rank[prev@[v]] < rank[v])) by {
            if prev@[v] != source {
                assert(dist@[v] == dist@[prev@[v]] + weights@[v]);
                assert(dist@[v] >= dist@[prev@[v]] + weights@[v] && weights@[v] >= 0 && dist@[v]
                    < INFINITY);
                assert(dist@[prev@[v]] < INFINITY);
                assert(alist_has_key(gs, prev@[v]));
                assert(prev@.contains_key(prev@[v]));
            }
        }
        assert forall|v: i32| #[trigger] prev@.contains_key(v) implies exists|n: nat|
            prev_steps_to_source(prev@, source, v, n) by {
            lemma_prev_rank_reaches_source(prev@, source, rank, v);
        }
    }
    Ok((dist, prev))
}

} // verus!

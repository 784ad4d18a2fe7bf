//! Terrain and river entities placed on the hexagonal grid, and the map
//! that owns them. The map hands every entity an integer id from one
//! monotonically increasing counter and keeps one shared adjacency graph
//! consistent with the entities' geometry: hex nodes are adjacent exactly
//! when their cells are grid neighbors, and every river node is adjacent
//! to exactly its two bounding hex nodes.

use vstd::prelude::*;

verus! {

use crate::errors::MapError;
use crate::graph::{BidirectionalGraph, graph_insert_effect, seq_set};
use crate::hexagons::{Cube, HexCoordinates, cube_distance};

/// Terrain kind of a hex cell.
#[derive(Debug, Clone, Copy, PartialEq, Eq, Structural)]
pub enum Field {
    Plain,
    Forest,
}

/// Kind of a river edge.
#[derive(Debug, Clone, Copy, PartialEq, Eq, Structural)]
pub enum River {
    Small,
    Stream,
}

/// A terrain cell placed on the map: a coordinate and its terrain kind.
#[derive(Debug, Clone, Copy, PartialEq, Eq, Structural)]
pub struct HexSite {
    pub coord: HexCoordinates,
    pub kind: Field,
}

impl HexSite {
    /// Builds a terrain site.
    pub fn new(coord: HexCoordinates, kind: Field) -> (s: HexSite)
        ensures
            s == (HexSite { coord, kind }),
    {
        HexSite { coord, kind }
    }

    /// The site's coordinate.
    pub fn coord(&self) -> (c: &HexCoordinates)
        ensures
            *c == self.coord,
    {
        &self.coord
    }

    /// The site's terrain kind.
    pub fn kind(&self) -> (k: Field)
        ensures
            k == self.kind,
    {
        self.kind
    }
}

/// A river running along the side shared by two adjacent hexes: the
/// unordered pair of the two cells it separates, plus its kind. Every
/// value keeps its two sides at grid distance exactly one.
#[derive(Debug, Clone, Copy)]
pub struct RiverSite {
    side1: HexCoordinates,
    side2: HexCoordinates,
    kind: River,
}

impl RiverSite {
    #[verifier::type_invariant]
    spec fn sides_adjacent(self) -> bool {
        cube_distance(self.side1@, self.side2@) == 1
    }

    /// The first stored side.
    pub closed spec fn spec_side1(self) -> HexCoordinates {
        self.side1
    }

    /// The second stored side.
    pub closed spec fn spec_side2(self) -> HexCoordinates {
        self.side2
    }

    /// The river's kind.
    pub closed spec fn spec_kind(self) -> River {
        self.kind
    }

    /// Builds a river between two sides; the sides must be adjacent
    /// cells, otherwise the construction is rejected.
    pub fn new(side1: HexCoordinates, side2: HexCoordinates, kind: River) -> (r: Result<
        RiverSite,
        MapError,
    >)
        ensures
            match r {
                Ok(site) => {
                    &&& cube_distance(side1@, side2@) == 1
                    &&& site.spec_side1() == side1
                    &&& site.spec_side2() == side2
                    &&& site.spec_kind() == kind
                },
                Err(e) => e == MapError::InvalidGeometry && cube_distance(side1@, side2@) != 1,
            },
    {
        if side1.distance_i64(&side2) == 1 {
            Ok(RiverSite { side1, side2, kind })
        } else {
            Err(MapError::InvalidGeometry)
        }
    }

    /// The two sides, in stored order.
    pub fn sides(&self) -> (r: (&HexCoordinates, &HexCoordinates))
        ensures
            *r.0 == self.spec_side1(),
            *r.1 == self.spec_side2(),
    {
        (&self.side1, &self.side2)
    }

    /// The river's kind.
    pub fn kind(&self) -> (k: River)
        ensures
            k == self.spec_kind(),
    {
        self.kind
    }
}

/// Whether the association list holds an entry for key `k`.
pub open spec fn pairs_has_key<V>(s: Seq<(i32, V)>, k: i32) -> bool {
    exists|i: int| 0 <= i < s.len() && (#[trigger] s[i]).0 == k
}

/// The position of key `k` in the association list.
pub open spec fn pairs_index_of<V>(s: Seq<(i32, V)>, k: i32) -> int {
    choose|i: int| 0 <= i < s.len() && (#[trigger] s[i]).0 == k
}

/// The mapping represented by the association list.
pub open spec fn pairs_view<V>(s: Seq<(i32, V)>) -> Map<i32, V> {
    Map::new(|k: i32| pairs_has_key(s, k), |k: i32| s[pairs_index_of(s, k)].1)
}

/// No two entries of the association list share a key.
pub open spec fn pairs_keys_distinct<V>(s: Seq<(i32, V)>) -> bool {
    forall|i: int, j: int| 0 <= i < j < s.len() ==> (#[trigger] s[i]).0 != (#[trigger] s[j]).0
}

/// With distinct keys, the index found for an entry's key is that entry's
/// own position.
pub proof fn lemma_pairs_index_of<V>(s: Seq<(i32, V)>, j: int)
    requires
        pairs_keys_distinct(s),
        0 <= j < s.len(),
    ensures
        pairs_has_key(s, s[j].0),
        pairs_index_of(s, s[j].0) == j,
{
    assert(pairs_has_key(s, s[j].0));
    let i = pairs_index_of(s, s[j].0);
    assert(0 <= i < s.len() && s[i].0 == s[j].0);
}

/// With distinct keys, each entry's value is what the represented mapping
/// assigns to its key.
pub proof fn lemma_pairs_entry<V>(s: Seq<(i32, V)>, j: int)
    requires
        pairs_keys_distinct(s),
        0 <= j < s.len(),
    ensures
        pairs_has_key(s, s[j].0),
        pairs_view(s).contains_key(s[j].0),
        pairs_view(s)[s[j].0] == s[j].1,
{
    lemma_pairs_index_of(s, j);
}

/// Appending a fresh key extends the represented mapping by one entry.
pub proof fn lemma_pairs_push<V>(s: Seq<(i32, V)>, k: i32, v: V)
    requires
        pairs_keys_distinct(s),
        !pairs_has_key(s, k),
    ensures
        pairs_keys_distinct(s.push((k, v))),
        pairs_view(s.push((k, v))) =~= pairs_view(s).insert(k, v),
{
    let t = s.push((k, v));
    assert(t[s.len() as int] == (k, v));
    assert forall|i: int, j: int| 0 <= i < j < t.len() implies (#[trigger] t[i]).0 != (
    #[trigger] t[j]).0 by {
        if j < s.len() {
            assert(t[i] == s[i] && t[j] == s[j]);
        } else {
            assert(t[i] == s[i]);
            if s[i].0 == k {
                assert(pairs_has_key(s, k));
            }
        }
    }
    assert forall|x: i32| pairs_has_key(t, x) implies pairs_has_key(s, x) || x == k by {
        let i = choose|i: int| 0 <= i < t.len() && t[i].0 == x;
        if i < s.len() {
            assert(s[i].0 == x);
        }
    }
    assert forall|x: i32| pairs_has_key(s, x) implies pairs_has_key(t, x) by {
        let i = choose|i: int| 0 <= i < s.len() && s[i].0 == x;
        assert(t[i].0 == x);
    }
    assert forall|x: i32| pairs_has_key(t, x) implies pairs_view(t)[x] == pairs_view(s).insert(
        k,
        v,
    )[x] by {
        if x == k {
            lemma_pairs_index_of(t, s.len() as int);
        } else {
            let i = pairs_index_of(s, x);
            assert(0 <= i < s.len() && s[i].0 == x) by {
                assert(pairs_has_key(s, x));
            }
            lemma_pairs_index_of(t, i);
            lemma_pairs_index_of(s, i);
            assert(t[i] == s[i]);
        }
    }
}

/// Whether some hex of the mapping sits at the given coordinate.
pub open spec fn has_hex_at(hm: Map<i32, HexSite>, c: HexCoordinates) -> bool {
    exists|k: i32| #[trigger] hm.contains_key(k) && hm[k].coord == c
}

/// Whether the river runs along the given coordinate.
pub open spec fn river_touches(r: RiverSite, c: HexCoordinates) -> bool {
    r.spec_side1() == c || r.spec_side2() == c
}

/// Whether the river joins exactly the unordered pair (a, b).
pub open spec fn river_joins(r: RiverSite, a: HexCoordinates, b: HexCoordinates) -> bool {
    ||| (r.spec_side1() == a && r.spec_side2() == b)
    ||| (r.spec_side1() == b && r.spec_side2() == a)
}

/// Whether some river of the mapping joins the unordered pair (a, b).
pub open spec fn has_river_between(
    rm: Map<i32, RiverSite>,
    a: HexCoordinates,
    b: HexCoordinates,
) -> bool {
    exists|k: i32| #[trigger] rm.contains_key(k) && river_joins(rm[k], a, b)
}

/// The ids of the hexes geometrically adjacent to the given site.
pub open spec fn hex_neighbor_ids(hm: Map<i32, HexSite>, hex: HexSite) -> Set<i32> {
    Set::new(|k: i32| hm.contains_key(k) && cube_distance(hm[k].coord@, hex.coord@) == 1)
}

/// The ids of the hexes a river is incident to: those sitting at one of
/// its two sides.
pub open spec fn river_incident_ids(hm: Map<i32, HexSite>, r: RiverSite) -> Set<i32> {
    Set::new(|k: i32| hm.contains_key(k) && river_touches(r, hm[k].coord))
}

/// The intended edge relation of the map's graph: hex ids are adjacent
/// exactly when their cells are grid neighbors, and a river id is
/// adjacent exactly to the hexes at its two sides.
pub open spec fn map_edge(hm: Map<i32, HexSite>, rm: Map<i32, RiverSite>, a: i32, b: i32) -> bool {
    ||| (hm.contains_key(a) && hm.contains_key(b) && cube_distance(hm[a].coord@, hm[b].coord@)
        == 1)
    ||| (hm.contains_key(a) && rm.contains_key(b) && river_touches(rm[b], hm[a].coord))
    ||| (rm.contains_key(a) && hm.contains_key(b) && river_touches(rm[a], hm[b].coord))
}

/// Consistency of the shared graph with the entities' geometry: its nodes
/// are exactly the entity ids, and its edges exactly the intended ones.
pub open spec fn map_graph_consistent(
    g: Map<i32, Set<i32>>,
    hm: Map<i32, HexSite>,
    rm: Map<i32, RiverSite>,
) -> bool {
    &&& forall|k: i32|
        #[trigger] g.contains_key(k) <==> (hm.contains_key(k) || rm.contains_key(k))
    &&& forall|a: i32, b: i32|
        g.contains_key(a) && g.contains_key(b) ==> (#[trigger] g[a].contains(b) <==> map_edge(
            hm,
            rm,
            a,
            b,
        ))
}

/// The battlefield map: terrain and river entities by id, plus the shared
/// adjacency graph over the common id space. Entities are only ever
/// added; ids are never reused.
#[derive(Debug, Clone)]
pub struct HexMap {
    graph: BidirectionalGraph,
    hexes: Vec<(i32, HexSite)>,
    rivers: Vec<(i32, RiverSite)>,
    current_free_id: i32,
}

impl HexMap {
    /// The terrain entities by id.
    pub closed spec fn hexes_map(self) -> Map<i32, HexSite> {
        pairs_view(self.hexes@)
    }

    /// The river entities by id.
    pub closed spec fn rivers_map(self) -> Map<i32, RiverSite> {
        pairs_view(self.rivers@)
    }

    /// The shared adjacency graph's mapping.
    pub closed spec fn graph_map(self) -> Map<i32, Set<i32>> {
        self.graph@
    }

    /// The next id the map will assign.
    pub closed spec fn next_id(self) -> i32 {
        self.current_free_id
    }

    /// Internal invariant: distinct ids below the counter, unique hex
    /// coordinates, unique river side pairs, river sides backed by hexes,
    /// and the graph consistent with the geometry.
    pub closed spec fn wf(self) -> bool {
        let hs = self.hexes@;
        let rs = self.rivers@;
        &&& self.graph.wf()
        &&& pairs_keys_distinct(hs)
        &&& pairs_keys_distinct(rs)
        &&& self.current_free_id >= 0
        &&& forall|i: int| 0 <= i < hs.len() ==> 0 <= (#[trigger] hs[i]).0 < self.current_free_id
        &&& forall|i: int| 0 <= i < rs.len() ==> 0 <= (#[trigger] rs[i]).0 < self.current_free_id
        &&& forall|i: int, j: int|
            0 <= i < hs.len() && 0 <= j < rs.len() ==> (#[trigger] hs[i]).0 != (
            #[trigger] rs[j]).0
        &&& forall|i: int, j: int|
            0 <= i < j < hs.len() ==> (#[trigger] hs[i]).1.coord != (#[trigger] hs[j]).1.coord
        &&& forall|i: int, j: int|
            0 <= i < j < rs.len() ==> !river_joins(
                (#[trigger] rs[i]).1,
                (#[trigger] rs[j]).1.spec_side1(),
                rs[j].1.spec_side2(),
            )
        &&& forall|j: int|
            0 <= j < rs.len() ==> has_hex_at(self.hexes_map(), (#[trigger] rs[j]).1.spec_side1())
                && has_hex_at(self.hexes_map(), rs[j].1.spec_side2())
        &&& map_graph_consistent(self.graph@, self.hexes_map(), self.rivers_map())
    }

    /// An empty map; ids start at zero.
    pub fn new() -> (m: HexMap)
        ensures
            m.wf(),
            m.hexes_map() == Map::<i32, HexSite>::empty(),
            m.rivers_map() == Map::<i32, RiverSite>::empty(),
            m.graph_map() == Map::<i32, Set<i32>>::empty(),
            m.next_id() == 0,
    {
        let m = HexMap {
            graph: BidirectionalGraph::new(),
            hexes: Vec::new(),
            rivers: Vec::new(),
            current_free_id: 0,
        };
        proof {
            assert(m.hexes_map() =~= Map::<i32, HexSite>::empty());
            assert(m.rivers_map() =~= Map::<i32, RiverSite>::empty());
        }
        m
    }

    /// Read access to the terrain entities, as (id, site) entries.
    pub fn hexes(&self) -> (r: &Vec<(i32, HexSite)>)
        requires
            self.wf(),
        ensures
            pairs_keys_distinct(r@),
            pairs_view(r@) == self.hexes_map(),
    {
        &self.hexes
    }

    /// Read access to the river entities, as (id, site) entries.
    pub fn rivers(&self) -> (r: &Vec<(i32, RiverSite)>)
        requires
            self.wf(),
        ensures
            pairs_keys_distinct(r@),
            pairs_view(r@) == self.rivers_map(),
    {
        &self.rivers
    }

    /// Read access to the shared adjacency graph.
    pub fn graph(&self) -> (g: &BidirectionalGraph)
        requires
            self.wf(),
        ensures
            g.wf(),
            g@ == self.graph_map(),
    {
        &self.graph
    }

    /// Inserts a terrain site under the next free id and links it in the
    /// graph to every geometrically adjacent hex already present. Fails
    /// when a hex already occupies the same coordinate, changing nothing.
    pub fn insert_hex(&mut self, hex: HexSite) -> (r: Result<(), MapError>)
        requires
            old(self).wf(),
            old(self).next_id() < i32::MAX,
        ensures
            final(self).wf(),
            match r {
                Ok(_) => {
                    &&& !has_hex_at(old(self).hexes_map(), hex.coord)
                    &&& final(self).hexes_map() == old(self).hexes_map().insert(
                        old(self).next_id(),
                        hex,
                    )
                    &&& final(self).rivers_map() == old(self).rivers_map()
                    &&& final(self).graph_map() == graph_insert_effect(
                        old(self).graph_map(),
                        old(self).next_id(),
                        hex_neighbor_ids(old(self).hexes_map(), hex),
                    )
                    &&& final(self).next_id() == old(self).next_id() + 1
                },
                Err(e) => {
                    &&& e == MapError::DuplicateEntity
                    &&& has_hex_at(old(self).hexes_map(), hex.coord)
                    &&& *final(self) == *old(self)
                },
            },
    {
        // Reject a second hex at an occupied coordinate.
        let mut i: usize = 0;
        while i < self.hexes.len()
            invariant
                i <= self.hexes@.len(),
                forall|j: int| 0 <= j < i ==> (#[trigger] self.hexes@[j]).1.coord != hex.coord,
        	decreases self.hexes@.len() - i,
        {
            if self.hexes[i].1.coord == hex.coord {
                proof {
                    lemma_pairs_index_of(self.hexes@, i as int);
                    assert(self.hexes_map().contains_key(self.hexes@[i as int].0));
                }
                return Err(MapError::DuplicateEntity);
            }
            i = i + 1;
        }
        proof {
            assert(!has_hex_at(self.hexes_map(), hex.coord)) by {
                if has_hex_at(self.hexes_map(), hex.coord) {
                    let k = choose|k: i32|
                        #[trigger] self.hexes_map().contains_key(k) && self.hexes_map()[k].coord
                            == hex.coord;
                    let j = pairs_index_of(self.hexes@, k);
                    assert(0 <= j < self.hexes@.len() && self.hexes@[j].0 == k) by {
                        assert(pairs_has_key(self.hexes@, k));
                    }
                }
            }
        }
        // Collect the ids of the geometrically adjacent hexes.
        let mut ids: Vec<i32> = Vec::new();
        let mut i: usize = 0;
        while i < self.hexes.len()
            invariant
                i <= self.hexes@.len(),
                forall|j: int|
                    0 <= j < i && cube_distance((#[trigger] self.hexes@[j]).1.coord@, hex.coord@)
                        == 1 ==> ids@.contains(self.hexes@[j].0),
                forall|x: i32|
                    #[trigger] ids@.contains(x) ==> exists|j: int|
                        0 <= j < self.hexes@.len() && (#[trigger] self.hexes@[j]).0 == x
                            && cube_distance(self.hexes@[j].1.coord@, hex.coord@) == 1,
            decreases self.hexes@.len() - i,
        {
            let entry_id = self.hexes[i].0;
            let adjacent = self.hexes[i].1.coord.distance_i64(&hex.coord) == 1;
            if adjacent {
                let ghost ids0 = ids@;
                ids.push(entry_id);
                proof {
                    assert(ids@[ids0.len() as int] == entry_id);
                    assert(self.hexes@[i as int].0 == entry_id && cube_distance(
                        self.hexes@[i as int].1.coord@,
                        hex.coord@,
                    ) == 1);
                    assert forall|x: i32| ids0.contains(x) implies ids@.contains(x) by {
                        let j = choose|j: int| 0 <= j < ids0.len() && ids0[j] == x;
                        assert(ids@[j] == x);
                    }
                    assert forall|x: i32| ids@.contains(x) implies ids0.contains(x) || x
                        == entry_id by {
                        let j = choose|j: int| 0 <= j < ids@.len() && ids@[j] == x;
                        if j < ids0.len() {
                            assert(ids0[j] == x);
                        }
                    }
                    assert forall|x: i32| #[trigger] ids@.contains(x) implies exists|j: int|
                        0 <= j < self.hexes@.len() && (#[trigger] self.hexes@[j]).0 == x
                            && cube_distance(self.hexes@[j].1.coord@, hex.coord@) == 1 by {
                        if x == entry_id {
                            assert(self.hexes@[i as int].0 == x && cube_distance(
                                self.hexes@[i as int].1.coord@,
                                hex.coord@,
                            ) == 1);
                        } else {
                            assert(ids0.contains(x));
                        }
                    }
                }
            }
            i = i + 1;
        }
        proof {
            assert(seq_set(ids@) =~= hex_neighbor_ids(self.hexes_map(), hex)) by {
                assert forall|x: i32| ids@.contains(x) implies hex_neighbor_ids(
                    self.hexes_map(),
                    hex,
                ).contains(x) by {
                    let j = choose|j: int|
                        0 <= j < self.hexes@.len() && (#[trigger] self.hexes@[j]).0 == x
                            && cube_distance(self.hexes@[j].1.coord@, hex.coord@) == 1;
                    lemma_pairs_index_of(self.hexes@, j);
                }
                assert forall|x: i32|
                    hex_neighbor_ids(self.hexes_map(), hex).contains(x) implies ids@.contains(
                    x,
                ) by {
                    let j = pairs_index_of(self.hexes@, x);
                    assert(0 <= j < self.hexes@.len() && self.hexes@[j].0 == x) by {
                        assert(pairs_has_key(self.hexes@, x));
                    }
                }
            }
        }
        let ghost pre = *self;
        let id = self.current_free_id;
        self.hexes.push((id, hex));
        proof {
            assert(!pairs_has_key(pre.hexes@, id)) by {
                if pairs_has_key(pre.hexes@, id) {
                    let j = choose|j: int| 0 <= j < pre.hexes@.len() && pre.hexes@[j].0 == id;
                }
            }
            lemma_pairs_push(pre.hexes@, id, hex);
            // The fresh id is not yet a graph node, and every collected
            // neighbor id is one.
            assert(!pre.graph@.contains_key(id));
            assert forall|n: i32| ids@.contains(n) implies pre.graph@.contains_key(n) by {
                assert(seq_set(ids@).contains(n));
                assert(hex_neighbor_ids(pre.hexes_map(), hex).contains(n));
            }
        }
        let linked = self.graph.insert_node(id, ids);
        match linked {
            Ok(_) => {},
            Err(_) => {
                proof {
                    assert(false);
                }
                return Err(MapError::MissingEntity);
            },
        }
        self.current_free_id = self.current_free_id + 1;
        proof {
            self.lemma_insert_hex_post(pre, hex);
        }
        Ok(())
    }

    /// Builds the fixture battlefield: a 3-by-3 axial block of plain
    /// hexes for q, r in -1..=1, inserted row-major under ids 0..9,
    /// followed by four stream rivers under ids 9..13 joining
    /// (0,-1)-(1,-1), (0,0)-(1,-1), (0,0)-(1,0) and (1,0)-(0,1).
    #[verifier::rlimit(100)]
    #[verifier::spinoff_prover]
    pub fn create_test_map() -> (m: HexMap)
        ensures
            m.wf(),
            m.next_id() == 13,
            forall|k: i32| #[trigger] m.hexes_map().contains_key(k) <==> 0 <= k < 9,
            forall|k: i32| #[trigger] m.rivers_map().contains_key(k) <==> 9 <= k < 13,
            forall|k: i32| m.hexes_map().contains_key(k) ==> (#[trigger] m.hexes_map()[k]).kind
                == Field::Plain,
            forall|k: i32| m.rivers_map().contains_key(k) ==> (#[trigger] m.rivers_map()[k]).spec_kind()
                == River::Stream,
            m.hexes_map()[0].coord@ == (Cube { x: -1, y: 2, z: -1 }),
            m.hexes_map()[1].coord@ == (Cube { x: -1, y: 1, z: 0 }),
            m.hexes_map()[2].coord@ == (Cube { x: -1, y: 0, z: 1 }),
            m.hexes_map()[3].coord@ == (Cube { x: 0, y: 1, z: -1 }),
            m.hexes_map()[4].coord@ == (Cube { x: 0, y: 0, z: 0 }),
            m.hexes_map()[5].coord@ == (Cube { x: 0, y: -1, z: 1 }),
            m.hexes_map()[6].coord@ == (Cube { x: 1, y: 0, z: -1 }),
            m.hexes_map()[7].coord@ == (Cube { x: 1, y: -1, z: 0 }),
            m.hexes_map()[8].coord@ == (Cube { x: 1, y: -2, z: 1 }),
            m.rivers_map()[9].spec_side1()@ == (Cube { x: -1, y: 1, z: 0 }),
            m.rivers_map()[9].spec_side2()@ == (Cube { x: -1, y: 0, z: 1 }),
            m.rivers_map()[10].spec_side1()@ == (Cube { x: 0, y: 0, z: 0 }),
            m.rivers_map()[10].spec_side2()@ == (Cube { x: -1, y: 0, z: 1 }),
            m.rivers_map()[11].spec_side1()@ == (Cube { x: 0, y: 0, z: 0 }),
            m.rivers_map()[11].spec_side2()@ == (Cube { x: 0, y: -1, z: 1 }),
            m.rivers_map()[12].spec_side1()@ == (Cube { x: 0, y: -1, z: 1 }),
            m.rivers_map()[12].spec_side2()@ == (Cube { x: 1, y: -1, z: 0 }),
            map_graph_consistent(m.graph_map(), m.hexes_map(), m.rivers_map()),
    {
        let cm1m1 = HexCoordinates::new_axial(-1, -1);
        let c0m1 = HexCoordinates::new_axial(0, -1);
        let c1m1 = HexCoordinates::new_axial(1, -1);
        let cm10 = HexCoordinates::new_axial(-1, 0);
        let c00 = HexCoordinates::new_axial(0, 0);
        let c10 = HexCoordinates::new_axial(1, 0);
        let cm11 = HexCoordinates::new_axial(-1, 1);
        let c01 = HexCoordinates::new_axial(0, 1);
        let c11 = HexCoordinates::new_axial(1, 1);
        let mut m = HexMap::new();
        m.insert_hex(HexSite::new(cm1m1, Field::Plain)).unwrap();
        m.insert_hex(HexSite::new(c0m1, Field::Plain)).unwrap();
        m.insert_hex(HexSite::new(c1m1, Field::Plain)).unwrap();
        m.insert_hex(HexSite::new(cm10, Field::Plain)).unwrap();
        m.insert_hex(HexSite::new(c00, Field::Plain)).unwrap();
        m.insert_hex(HexSite::new(c10, Field::Plain)).unwrap();
        m.insert_hex(HexSite::new(cm11, Field::Plain)).unwrap();
        m.insert_hex(HexSite::new(c01, Field::Plain)).unwrap();
        m.insert_hex(HexSite::new(c11, Field::Plain)).unwrap();
        let r1 = RiverSite::new(c0m1, c1m1, River::Stream).unwrap();
        proof {
            assert(m.hexes_map().contains_key(1) && m.hexes_map()[1].coord == c0m1);
            assert(m.hexes_map().contains_key(2) && m.hexes_map()[2].coord == c1m1);
            assert(!has_river_between(m.rivers_map(), c0m1, c1m1)) by {
                if has_river_between(m.rivers_map(), c0m1, c1m1) {
                    let k = choose|k: i32|
                        #[trigger] m.rivers_map().contains_key(k) && river_joins(
                            m.rivers_map()[k],
                            c0m1,
                            c1m1,
                        );
                }
            }
        }
        m.insert_river(r1).unwrap();
        let r2 = RiverSite::new(c00, c1m1, River::Stream).unwrap();
        proof {
            assert(m.hexes_map().contains_key(4) && m.hexes_map()[4].coord == c00);
            assert(m.hexes_map().contains_key(2) && m.hexes_map()[2].coord == c1m1);
            assert(!has_river_between(m.rivers_map(), c00, c1m1)) by {
                if has_river_between(m.rivers_map(), c00, c1m1) {
                    let k = choose|k: i32|
                        #[trigger] m.rivers_map().contains_key(k) && river_joins(
                            m.rivers_map()[k],
                            c00,
                            c1m1,
                        );
                }
            }
        }
        m.insert_river(r2).unwrap();
        let r3 = RiverSite::new(c00, c10, River::Stream).unwrap();
        proof {
            assert(m.hexes_map().contains_key(4) && m.hexes_map()[4].coord == c00);
            assert(m.hexes_map().contains_key(5) && m.hexes_map()[5].coord == c10);
            assert(!has_river_between(m.rivers_map(), c00, c10)) by {
                if has_river_between(m.rivers_map(), c00, c10) {
                    let k = choose|k: i32|
                        #[trigger] m.rivers_map().contains_key(k) && river_joins(
                            m.rivers_map()[k],
                            c00,
                            c10,
                        );
                }
            }
        }
        m.insert_river(r3).unwrap();
        let r4 = RiverSite::new(c10, c01, River::Stream).unwrap();
        proof {
            assert(m.hexes_map().contains_key(5) && m.hexes_map()[5].coord == c10);
            assert(m.hexes_map().contains_key(7) && m.hexes_map()[7].coord == c01);
            assert(!has_river_between(m.rivers_map(), c10, c01)) by {
                if has_river_between(m.rivers_map(), c10, c01) {
                    let k = choose|k: i32|
                        #[trigger] m.rivers_map().contains_key(k) && river_joins(
                            m.rivers_map()[k],
                            c10,
                            c01,
                        );
                }
            }
        }
        m.insert_river(r4).unwrap();
        m
    }

    /// Law: a well-formed map's shared graph is consistent with its
    /// entities' geometry — its nodes are exactly the entity ids, hex
    /// nodes are adjacent exactly when their cells are grid neighbors,
    /// and each river node is adjacent exactly to the hexes at its two
    /// sides.
    pub proof fn lemma_graph_matches_geometry(self)
        requires
            self.wf(),
        ensures
            map_graph_consistent(self.graph_map(), self.hexes_map(), self.rivers_map()),
    {
    }

    /// Two hex ids at the same coordinate are the same id.
    proof fn lemma_hex_id_unique(self, k1: i32, k2: i32)
        requires
            self.wf(),
            self.hexes_map().contains_key(k1),
            self.hexes_map().contains_key(k2),
            self.hexes_map()[k1].coord == self.hexes_map()[k2].coord,
        ensures
            k1 == k2,
    {
        let s = self.hexes@;
        let i1 = pairs_index_of(s, k1);
        let i2 = pairs_index_of(s, k2);
        assert(0 <= i1 < s.len() && s[i1].0 == k1) by {
            assert(pairs_has_key(s, k1));
        }
        assert(0 <= i2 < s.len() && s[i2].0 == k2) by {
            assert(pairs_has_key(s, k2));
        }
        if i1 != i2 {
            assert(s[i1].1.coord != s[i2].1.coord);
        }
    }

    /// The id of the hex at the given coordinate, if any.
    fn find_hex_id_at(&self, c: &HexCoordinates) -> (r: Option<i32>)
        requires
            self.wf(),
        ensures
            match r {
                Some(k) => self.hexes_map().contains_key(k) && self.hexes_map()[k].coord == *c,
                None => !has_hex_at(self.hexes_map(), *c),
            },
    {
        let mut i: usize = 0;
        while i < self.hexes.len()
            invariant
                i <= self.hexes@.len(),
                forall|j: int| 0 <= j < i ==> (#[trigger] self.hexes@[j]).1.coord != *c,
            decreases self.hexes@.len() - i,
        {
            if self.hexes[i].1.coord == *c {
                proof {
                    lemma_pairs_index_of(self.hexes@, i as int);
                }
                return Some(self.hexes[i].0);
            }
            i = i + 1;
        }
        proof {
            assert(!has_hex_at(self.hexes_map(), *c)) by {
                if has_hex_at(self.hexes_map(), *c) {
                    let k = choose|k: i32|
                        #[trigger] self.hexes_map().contains_key(k) && self.hexes_map()[k].coord
                            == *c;
                    let j = pairs_index_of(self.hexes@, k);
                    assert(0 <= j < self.hexes@.len() && self.hexes@[j].0 == k) by {
                        assert(pairs_has_key(self.hexes@, k));
                    }
                }
            }
        }
        None
    }

    /// Inserts a river under the next free id and links it in the graph to
    /// exactly the two hexes at its sides. Fails with a missing entity
    /// when either side has no hex yet, and with a duplicate entity when a
    /// river over the same unordered side pair exists; failures change
    /// nothing.
    pub fn insert_river(&mut self, river: RiverSite) -> (r: Result<(), MapError>)
        requires
            old(self).wf(),
            old(self).next_id() < i32::MAX,
        ensures
            final(self).wf(),
            match r {
                Ok(_) => {
                    &&& has_hex_at(old(self).hexes_map(), river.spec_side1())
                    &&& has_hex_at(old(self).hexes_map(), river.spec_side2())
                    &&& !has_river_between(
                        old(self).rivers_map(),
                        river.spec_side1(),
                        river.spec_side2(),
                    )
                    &&& final(self).rivers_map() == old(self).rivers_map().insert(
                        old(self).next_id(),
                        river,
                    )
                    &&& final(self).hexes_map() == old(self).hexes_map()
                    &&& final(self).graph_map() == graph_insert_effect(
                        old(self).graph_map(),
                        old(self).next_id(),
                        river_incident_ids(old(self).hexes_map(), river),
                    )
                    &&& final(self).next_id() == old(self).next_id() + 1
                },
                Err(MapError::MissingEntity) => {
                    &&& !(has_hex_at(old(self).hexes_map(), river.spec_side1()) && has_hex_at(
                        old(self).hexes_map(),
                        river.spec_side2(),
                    ))
                    &&& *final(self) == *old(self)
                },
                Err(MapError::DuplicateEntity) => {
                    &&& has_hex_at(old(self).hexes_map(), river.spec_side1())
                    &&& has_hex_at(old(self).hexes_map(), river.spec_side2())
                    &&& has_river_between(
                        old(self).rivers_map(),
                        river.spec_side1(),
                        river.spec_side2(),
                    )
                    &&& *final(self) == *old(self)
                },
                Err(_) => false,
            },
    {
        // Both sides must already carry a hex.
        let (side1, side2) = {
            let sides = river.sides();
            (*sides.0, *sides.1)
        };
        let id1 = match self.find_hex_id_at(&side1) {
            Some(k) => k,
            None => {
                return Err(MapError::MissingEntity);
            },
        };
        let id2 = match self.find_hex_id_at(&side2) {
            Some(k) => k,
            None => {
                return Err(MapError::MissingEntity);
            },
        };
        // No second river over the same unordered side pair.
        let mut i: usize = 0;
        while i < self.rivers.len()
            invariant
                i <= self.rivers@.len(),
                forall|j: int|
                    0 <= j < i ==> !river_joins((#[trigger] self.rivers@[j]).1, side1, side2),
            decreases self.rivers@.len() - i,
        {
            let entry = &self.rivers[i].1;
            if (entry.side1 == side1 && entry.side2 == side2) || (entry.side1 == side2
                && entry.side2 == side1) {
                proof {
                    lemma_pairs_index_of(self.rivers@, i as int);
                    assert(self.rivers_map().contains_key(self.rivers@[i as int].0));
                }
                return Err(MapError::DuplicateEntity);
            }
            i = i + 1;
        }
        proof {
            assert(!has_river_between(self.rivers_map(), side1, side2)) by {
                if has_river_between(self.rivers_map(), side1, side2) {
                    let k = choose|k: i32|
                        #[trigger] self.rivers_map().contains_key(k) && river_joins(
                            self.rivers_map()[k],
                            side1,
                            side2,
                        );
                    let j = pairs_index_of(self.rivers@, k);
                    assert(0 <= j < self.rivers@.len() && self.rivers@[j].0 == k) by {
                        assert(pairs_has_key(self.rivers@, k));
                    }
                }
            }
        }
        let ghost pre = *self;
        let id = self.current_free_id;
        self.rivers.push((id, river));
        let mut found: Vec<i32> = Vec::new();
        found.push(id1);
        found.push(id2);
        proof {
            use_type_invariant(river);
            assert(side1 != side2) by {
                if side1 == side2 {
                    assert(cube_distance(side1@, side2@) == 0);
                }
            }
            assert(id1 != id2) by {
                if id1 == id2 {
                    assert(pre.hexes_map()[id1].coord == side1);
                    assert(pre.hexes_map()[id2].coord == side2);
                }
            }
            assert(found@[0] == id1 && found@[1] == id2 && found@.len() == 2);
            assert(seq_set(found@) =~= river_incident_ids(pre.hexes_map(), river)) by {
                assert forall|x: i32| found@.contains(x) implies river_incident_ids(
                    pre.hexes_map(),
                    river,
                ).contains(x) by {
                    let j = choose|j: int| 0 <= j < found@.len() && found@[j] == x;
                    assert(x == id1 || x == id2);
                }
                assert forall|x: i32|
                    river_incident_ids(pre.hexes_map(), river).contains(x) implies found@.contains(
                    x,
                ) by {
                    if pre.hexes_map()[x].coord == river.spec_side1() {
                        pre.lemma_hex_id_unique(x, id1);
                        assert(found@[0] == x);
                    } else {
                        pre.lemma_hex_id_unique(x, id2);
                        assert(found@[1] == x);
                    }
                }
            }
            assert(!pre.graph@.contains_key(id));
            assert(pre.graph@.contains_key(id1) && pre.graph@.contains_key(id2));
        }
        let linked = self.graph.insert_node(id, found);
        match linked {
            Ok(_) => {},
            Err(_) => {
                proof {
                    assert(false);
                }
                return Err(MapError::MissingEntity);
            },
        }
        self.current_free_id = self.current_free_id + 1;
        proof {
            self.lemma_insert_river_post(pre, river);
        }
        Ok(())
    }

    /// Establishes well-formedness after `insert_river` appended a fresh
    /// river and linked the fresh id to the two hexes at its sides.
    proof fn lemma_insert_river_post(self, pre: HexMap, river: RiverSite)
        requires
            pre.wf(),
            pre.current_free_id < i32::MAX,
            has_hex_at(pre.hexes_map(), river.spec_side1()),
            has_hex_at(pre.hexes_map(), river.spec_side2()),
            !has_river_between(pre.rivers_map(), river.spec_side1(), river.spec_side2()),
            self.rivers@ == pre.rivers@.push((pre.current_free_id, river)),
            self.hexes@ == pre.hexes@,
            self.current_free_id == pre.current_free_id + 1,
            self.graph.wf(),
            self.graph@ == graph_insert_effect(
                pre.graph@,
                pre.current_free_id,
                river_incident_ids(pre.hexes_map(), river),
            ),
        ensures
            self.wf(),
            self.rivers_map() == pre.rivers_map().insert(pre.current_free_id, river),
    {
        let id = pre.current_free_id;
        let hs = self.hexes@;
        let rs = self.rivers@;
        let hm = pre.hexes_map();
        let rm0 = pre.rivers_map();
        assert(!pairs_has_key(pre.rivers@, id)) by {
            if pairs_has_key(pre.rivers@, id) {
                let j = choose|j: int| 0 <= j < pre.rivers@.len() && pre.rivers@[j].0 == id;
            }
        }
        lemma_pairs_push(pre.rivers@, id, river);
        assert(self.rivers_map() =~= rm0.insert(id, river));
        let rm = self.rivers_map();
        assert(self.hexes_map() == hm);
        // Unordered side pairs stay pairwise distinct.
        assert forall|i: int, j: int| 0 <= i < j < rs.len() implies !river_joins(
            (#[trigger] rs[i]).1,
            (#[trigger] rs[j]).1.spec_side1(),
            rs[j].1.spec_side2(),
        ) by {
            if j < pre.rivers@.len() {
                assert(rs[i] == pre.rivers@[i] && rs[j] == pre.rivers@[j]);
            } else {
                assert(rs[j].1 == river);
                assert(rs[i] == pre.rivers@[i]);
                if river_joins(rs[i].1, river.spec_side1(), river.spec_side2()) {
                    lemma_pairs_index_of(pre.rivers@, i);
                    assert(rm0.contains_key(pre.rivers@[i].0) && river_joins(
                        rm0[pre.rivers@[i].0],
                        river.spec_side1(),
                        river.spec_side2(),
                    ));
                }
            }
        }
        // Every river's sides still carry hexes.
        assert forall|j: int|
            0 <= j < rs.len() implies has_hex_at(self.hexes_map(), (#[trigger] rs[j]).1.spec_side1())
                && has_hex_at(self.hexes_map(), rs[j].1.spec_side2()) by {
            if j < pre.rivers@.len() {
                assert(rs[j] == pre.rivers@[j]);
            } else {
                assert(rs[j].1 == river);
            }
        }
        // Graph consistency.
        let g0 = pre.graph@;
        let g = self.graph@;
        let inc = river_incident_ids(hm, river);
        pre.graph.lemma_view_wf();
        assert forall|k: i32| #[trigger] g.contains_key(k) <==> (hm.contains_key(k)
            || rm.contains_key(k)) by {}
        assert forall|a: i32, b: i32|
            g.contains_key(a) && g.contains_key(b) implies (#[trigger] g[a].contains(b)
            <==> map_edge(hm, rm, a, b)) by {
            if a != id && b != id {
                assert(g[a].contains(b) <==> g0[a].contains(b)) by {
                    if inc.contains(a) {
                        assert(g[a] == g0[a].insert(id));
                    } else {
                        assert(g[a] == g0[a]);
                    }
                }
                assert(map_edge(hm, rm, a, b) <==> map_edge(hm, rm0, a, b)) by {
                    assert(rm.contains_key(a) ==> rm[a] == rm0[a]);
                    assert(rm.contains_key(b) ==> rm[b] == rm0[b]);
                }
            } else if a == id && b == id {
                assert(g[id] == inc);
                assert(!inc.contains(id));
                assert(!hm.contains_key(id));
            } else if a == id {
                assert(g[id] == inc);
                assert(!hm.contains_key(id));
                assert(rm[id] == river);
                assert(map_edge(hm, rm, id, b) <==> (hm.contains_key(b) && river_touches(
                    river,
                    hm[b].coord,
                ))) by {
                    assert(rm.contains_key(b) ==> !hm.contains_key(b));
                }
            } else {
                assert(b == id);
                assert(g[a].contains(id) <==> inc.contains(a)) by {
                    if inc.contains(a) {
                        assert(g[a] == g0[a].insert(id));
                    } else {
                        assert(g[a] == g0[a]);
                        if g0[a].contains(id) {
                            assert(g0.contains_key(id));
                        }
                    }
                }
                assert(!hm.contains_key(id));
                assert(rm[id] == river);
                assert(map_edge(hm, rm, a, id) <==> (hm.contains_key(a) && river_touches(
                    river,
                    hm[a].coord,
                ))) by {
                    assert(rm.contains_key(a) ==> !hm.contains_key(a));
                }
            }
        }
    }

    /// Establishes well-formedness after `insert_hex` extended the hex
    /// list by a fresh coordinate and linked the fresh id to the adjacent
    /// hexes.
    proof fn lemma_insert_hex_post(self, pre: HexMap, hex: HexSite)
        requires
            pre.wf(),
            pre.current_free_id < i32::MAX,
            !has_hex_at(pre.hexes_map(), hex.coord),
            self.hexes@ == pre.hexes@.push((pre.current_free_id, hex)),
            self.rivers@ == pre.rivers@,
            self.current_free_id == pre.current_free_id + 1,
            self.graph.wf(),
            self.graph@ == graph_insert_effect(
                pre.graph@,
                pre.current_free_id,
                hex_neighbor_ids(pre.hexes_map(), hex),
            ),
        ensures
            self.wf(),
            self.hexes_map() == pre.hexes_map().insert(pre.current_free_id, hex),
    {
        let id = pre.current_free_id;
        let hs = self.hexes@;
        let rs = self.rivers@;
        let hm0 = pre.hexes_map();
        let rm = pre.rivers_map();
        assert(!pairs_has_key(pre.hexes@, id)) by {
            if pairs_has_key(pre.hexes@, id) {
                let j = choose|j: int| 0 <= j < pre.hexes@.len() && pre.hexes@[j].0 == id;
            }
        }
        lemma_pairs_push(pre.hexes@, id, hex);
        assert(self.hexes_map() =~= hm0.insert(id, hex));
        let hm = self.hexes_map();
        // Distinct hex coordinates still hold: the new one is fresh.
        assert forall|i: int, j: int| 0 <= i < j < hs.len() implies (#[trigger] hs[i]).1.coord != (
        #[trigger] hs[j]).1.coord by {
            if j < pre.hexes@.len() {
                assert(hs[i] == pre.hexes@[i] && hs[j] == pre.hexes@[j]);
            } else {
                assert(hs[j].1 == hex);
                assert(hs[i] == pre.hexes@[i]);
                if pre.hexes@[i].1.coord == hex.coord {
                    lemma_pairs_index_of(pre.hexes@, i);
                    assert(hm0.contains_key(pre.hexes@[i].0) && hm0[pre.hexes@[i].0].coord
                        == hex.coord);
                }
            }
        }
        // River sides still have their hexes: the hex mapping only grew.
        assert forall|j: int|
            0 <= j < rs.len() implies has_hex_at(hm, (#[trigger] rs[j]).1.spec_side1())
                && has_hex_at(hm, rs[j].1.spec_side2()) by {
            assert(has_hex_at(hm0, rs[j].1.spec_side1()));
            assert(has_hex_at(hm0, rs[j].1.spec_side2()));
            let k1 = choose|k: i32|
                #[trigger] hm0.contains_key(k) && hm0[k].coord == rs[j].1.spec_side1();
            let k2 = choose|k: i32|
                #[trigger] hm0.contains_key(k) && hm0[k].coord == rs[j].1.spec_side2();
            assert(hm.contains_key(k1) && hm[k1] == hm0[k1]);
            assert(hm.contains_key(k2) && hm[k2] == hm0[k2]);
        }
        // Graph consistency.
        let g0 = pre.graph@;
        let g = self.graph@;
        let ns = hex_neighbor_ids(hm0, hex);
        pre.graph.lemma_view_wf();
        assert forall|k: i32| #[trigger] g.contains_key(k) <==> (hm.contains_key(k)
            || rm.contains_key(k)) by {}
        assert forall|a: i32, b: i32|
            g.contains_key(a) && g.contains_key(b) implies (#[trigger] g[a].contains(b)
            <==> map_edge(hm, rm, a, b)) by {
            // No river runs along the fresh coordinate: its sides are
            // existing hex coordinates and the fresh one is not.
            assert forall|k: i32|
                #[trigger] rm.contains_key(k) implies !river_touches(rm[k], hex.coord) by {
                let j = pairs_index_of(pre.rivers@, k);
                assert(0 <= j < pre.rivers@.len() && pre.rivers@[j].0 == k) by {
                    assert(pairs_has_key(pre.rivers@, k));
                }
                assert(has_hex_at(hm0, rm[k].spec_side1()));
                assert(has_hex_at(hm0, rm[k].spec_side2()));
                if river_touches(rm[k], hex.coord) {
                    assert(has_hex_at(hm0, hex.coord));
                }
            }
            if a != id && b != id {
                assert(g[a].contains(b) <==> g0[a].contains(b)) by {
                    if ns.contains(a) {
                        assert(g[a] == g0[a].insert(id));
                    } else {
                        assert(g[a] == g0[a]);
                    }
                }
                assert(map_edge(hm, rm, a, b) <==> map_edge(hm0, rm, a, b)) by {
                    assert(hm.contains_key(a) ==> hm[a] == hm0[a]);
                    assert(hm.contains_key(b) ==> hm[b] == hm0[b]);
                }
            } else if a == id && b == id {
                assert(g[id] == ns);
                assert(!ns.contains(id));
                assert(cube_distance(hex.coord@, hex.coord@) == 0);
            } else if a == id {
                assert(g[id] == ns);
                assert(g[a].contains(b) <==> (hm0.contains_key(b) && cube_distance(
                    hm0[b].coord@,
                    hex.coord@,
                ) == 1));
                assert(map_edge(hm, rm, id, b) <==> (hm0.contains_key(b) && cube_distance(
                    hex.coord@,
                    hm0[b].coord@,
                ) == 1)) by {
                    assert(hm[id] == hex);
                    assert(!rm.contains_key(id));
                    assert(hm.contains_key(b) ==> hm[b] == hm0[b]);
                }
                assert(cube_distance(hex.coord@, hm0[b].coord@) == cube_distance(
                    hm0[b].coord@,
                    hex.coord@,
                ));
            } else {
                assert(b == id);
                assert(g[id] == ns);
                assert(g[a].contains(id) <==> ns.contains(a)) by {
                    if ns.contains(a) {
                        assert(g[a] == g0[a].insert(id));
                    } else {
                        assert(g[a] == g0[a]);
                        if g0[a].contains(id) {
                            assert(g0.contains_key(id));
                        }
                    }
                }
                assert(map_edge(hm, rm, a, id) <==> (hm0.contains_key(a) && cube_distance(
                    hm0[a].coord@,
                    hex.coord@,
                ) == 1)) by {
                    assert(hm[id] == hex);
                    assert(!rm.contains_key(id));
                    assert(hm.contains_key(a) ==> hm[a] == hm0[a]);
                }
            }
        }
    }
}

} // verus!

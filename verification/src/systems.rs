//! Per-unit game-play components and the systems that own them. The
//! moving system tracks, for every registered unit, its movement points
//! and the hex it currently occupies.

use vstd::prelude::*;

verus! {

use crate::board::{pairs_has_key, pairs_index_of, pairs_keys_distinct, pairs_view, Field, River};
use crate::hexagons::HexCoordinates;

/// Movement cost charged to a mechanized unit for entering a terrain
/// cell; the weight table handed to the path search is assembled from
/// these.
pub fn cost_of_entering_hex(field: Field) -> (c: i32)
    ensures
        c == match field {
            Field::Plain => 1i32,
            Field::Forest => 2i32,
        },
{
    match field {
        Field::Plain => 1,
        Field::Forest => 2,
    }
}

/// Movement cost charged to a mechanized unit for crossing a river edge.
pub fn cost_of_crossing_river(river: River) -> (c: i32)
    ensures
        c == match river {
            River::Small => 6i32,
            River::Stream => 4i32,
        },
{
    match river {
        River::Small => 6,
        River::Stream => 4,
    }
}

/// A per-unit piece of game state, owned by a system and tied back to its
/// unit by id.
pub trait Component {
    /// Advances the component by one tick; most components need nothing.
    fn update(&mut self) {
    }

    /// The id of the unit this component belongs to.
    fn owner_id(&self) -> i32;
}

/// Movement state of one unit: its full movement allowance, what is left
/// of it this turn, and the hex it stands on, if it was placed.
#[derive(Debug, Clone, Copy, PartialEq, Eq)]
pub struct MovingComponent {
    pub def_moving_pts: i32,
    pub current_moving_pts: i32,
    pub occupation: Option<HexCoordinates>,
    pub owner_id: i32,
}

impl Component for MovingComponent {
    fn owner_id(&self) -> i32 {
        self.owner_id
    }
}

impl MovingComponent {
    /// A fresh component with its full allowance and no placement.
    pub fn new(owner_id: i32, moving_pts: i32) -> (c: MovingComponent)
        ensures
            c == (MovingComponent {
                def_moving_pts: moving_pts,
                current_moving_pts: moving_pts,
                occupation: None::<HexCoordinates>,
                owner_id,
            }),
    {
        MovingComponent {
            def_moving_pts: moving_pts,
            current_moving_pts: moving_pts,
            occupation: None,
            owner_id,
        }
    }

    /// Spends movement points; fails without change when the cost exceeds
    /// what is left. A negative cost adds points back.
    pub fn reduce_mv_pts(&mut self, cost: i32) -> (r: Result<(), &'static str>)
        requires
            old(self).current_moving_pts - cost <= i32::MAX,
        ensures
            match r {
                Ok(_) => {
                    &&& old(self).current_moving_pts >= cost
                    &&& *final(self) == (MovingComponent {
                        current_moving_pts: (old(self).current_moving_pts - cost) as i32,
                        ..*old(self)
                    })
                },
                Err(_) => {
                    &&& old(self).current_moving_pts < cost
                    &&& *final(self) == *old(self)
                },
            },
    {
        if self.current_moving_pts < cost {
            return Err("Cost of movement higher than available moving points.");
        }
        self.current_moving_pts = self.current_moving_pts - cost;
        Ok(())
    }

    /// Restores the full movement allowance.
    pub fn reest_mv_pts(&mut self)
        ensures
            *final(self) == (MovingComponent {
                current_moving_pts: old(self).def_moving_pts,
                ..*old(self)
            }),
    {
        self.current_moving_pts = self.def_moving_pts;
    }
}

/// Owns the moving components of all registered units, by unit id.
#[derive(Debug, Clone)]
pub struct MovingSystem {
    components: Vec<(i32, MovingComponent)>,
}

impl MovingSystem {
    /// The components by unit id.
    pub closed spec fn components_map(self) -> Map<i32, MovingComponent> {
        pairs_view(self.components@)
    }

    /// Internal invariant: one component per unit id.
    pub closed spec fn wf(self) -> bool {
        pairs_keys_distinct(self.components@)
    }

    /// An empty system.
    pub fn new() -> (s: MovingSystem)
        ensures
            s.wf(),
            s.components_map() == Map::<i32, MovingComponent>::empty(),
    {
        let s = MovingSystem { components: Vec::new() };
        proof {
            assert(s.components_map() =~= Map::<i32, MovingComponent>::empty());
        }
        s
    }

    /// Stores the component for a unit id, replacing any earlier one.
    pub fn insert_component(&mut self, id: i32, c: MovingComponent)
        requires
            old(self).wf(),
        ensures
            final(self).wf(),
            final(self).components_map() == old(self).components_map().insert(id, c),
    {
        let ghost s0 = self.components@;
        let mut i: usize = 0;
        while i < self.components.len()
            invariant
                i <= s0.len(),
                self.components@ == s0,
                forall|j: int| 0 <= j < i ==> (#[trigger] s0[j]).0 != id,
            decreases s0.len() - i,
        {
            if self.components[i].0 == id {
                self.components[i].1 = c;
                proof {
                    assert forall|k: i32|
                        pairs_has_key(self.components@, k) == pairs_has_key(s0, k) by {
                        if pairs_has_key(self.components@, k) {
                            let j = choose|j: int|
                                0 <= j < self.components@.len() && self.components@[j].0 == k;
                            assert(s0[j].0 == k);
                        }
                        if pairs_has_key(s0, k) {
                            let j = choose|j: int| 0 <= j < s0.len() && s0[j].0 == k;
                            assert(self.components@[j].0 == k);
                        }
                    }
                    assert forall|k: i32|
                        pairs_has_key(s0, k) implies pairs_view(self.components@)[k]
                        == pairs_view(s0).insert(id, c)[k] by {
                        let j = pairs_index_of(s0, k);
                        assert(0 <= j < s0.len() && s0[j].0 == k);
                        crate::board::lemma_pairs_entry(self.components@, j);
                        crate::board::lemma_pairs_entry(s0, j);
                    }
                    assert(pairs_view(self.components@) =~= pairs_view(s0).insert(id, c));
                }
                return ;
            }
            i = i + 1;
        }
        proof {
            assert(!pairs_has_key(s0, id)) by {
                if pairs_has_key(s0, id) {
                    let j = choose|j: int| 0 <= j < s0.len() && s0[j].0 == id;
                }
            }
            crate::board::lemma_pairs_push(s0, id, c);
        }
        self.components.push((id, c));
    }

    /// The component registered for a unit id, if any.
    pub fn get_component(&self, id: i32) -> (r: Option<&MovingComponent>)
        requires
            self.wf(),
        ensures
            match r {
                Some(c) => self.components_map().contains_key(id) && *c
                    == self.components_map()[id],
                None => !self.components_map().contains_key(id),
            },
    {
        let mut i: usize = 0;
        while i < self.components.len()
            invariant
                i <= self.components@.len(),
                forall|j: int| 0 <= j < i ==> (#[trigger] self.components@[j]).0 != id,
            decreases self.components@.len() - i,
        {
            if self.components[i].0 == id {
                proof {
                    crate::board::lemma_pairs_entry(self.components@, i as int);
                }
                return Some(&self.components[i].1);
            }
            i = i + 1;
        }
        proof {
            assert(!pairs_has_key(self.components@, id)) by {
                if pairs_has_key(self.components@, id) {
                    let j = choose|j: int|
                        0 <= j < self.components@.len() && self.components@[j].0 == id;
                }
            }
        }
        None
    }

    /// The ids of every unit whose component stands on the given hex.
    pub fn get_on_hex(&self, hex: HexCoordinates) -> (r: Vec<i32>)
        requires
            self.wf(),
        ensures
            forall|j: int|
                0 <= j < r@.len() ==> {
                    let k = #[trigger] r@[j];
                    &&& self.components_map().contains_key(k)
                    &&& self.components_map()[k].occupation == Some(hex)
                },
            forall|k: i32|
                self.components_map().contains_key(k) && (#[trigger] self.components_map()[k]).occupation
                    == Some(hex) ==> r@.contains(k),
            forall|a: int, b: int| 0 <= a < b < r@.len() ==> r@[a] != r@[b],
    {
        let mut r: Vec<i32> = Vec::new();
        let mut i: usize = 0;
        while i < self.components.len()
            invariant
                i <= self.components@.len(),
                forall|j: int|
                    0 <= j < r@.len() ==> {
                        let k = #[trigger] r@[j];
                        &&& self.components_map().contains_key(k)
                        &&& self.components_map()[k].occupation == Some(hex)
                    },
                forall|j: int|
                    0 <= j < i && (#[trigger] self.components@[j]).1.occupation == Some(hex)
                        ==> r@.contains(self.components@[j].0),
                forall|a: int|
                    0 <= a < r@.len() ==> exists|j: int|
                        0 <= j < i && (#[trigger] self.components@[j]).0 == #[trigger] r@[a],
                forall|a: int, b: int| 0 <= a < b < r@.len() ==> r@[a] != r@[b],
            decreases self.components@.len() - i,
        {
            let on_hex = match &self.components[i].1.occupation {
                Some(c) => *c == hex,
                None => false,
            };
            if on_hex {
                let ghost r0 = r@;
                r.push(self.components[i].0);
                proof {
                    crate::board::lemma_pairs_entry(self.components@, i as int);
                    assert(r@[r0.len() as int] == self.components@[i as int].0);
                    assert forall|x: i32| r0.contains(x) implies r@.contains(x) by {
                        let j = choose|j: int| 0 <= j < r0.len() && r0[j] == x;
                        assert(r@[j] == x);
                    }
                    // The key at the scan position is fresh in the result:
                    // every earlier element came from an earlier entry, and
                    // entries have distinct keys.
                    assert forall|a: int| 0 <= a < r0.len() implies r0[a] != self.components@[
                        i as int
                    ].0 by {
                        let j = choose|j: int|
                            0 <= j < i && (#[trigger] self.components@[j]).0 == r0[a];
                    }
                }
            }
            i = i + 1;
        }
        proof {
            assert forall|k: i32|
                self.components_map().contains_key(k) && (#[trigger] self.components_map()[k]).occupation
                    == Some(hex) implies r@.contains(k) by {
                let j = pairs_index_of(self.components@, k);
                assert(0 <= j < self.components@.len() && self.components@[j].0 == k) by {
                    assert(pairs_has_key(self.components@, k));
                }
                crate::board::lemma_pairs_entry(self.components@, j);
            }
        }
        r
    }
}

/// The bundle of game-play systems the application drives.
pub struct GameSystems {
    pub moving: MovingSystem,
}

impl GameSystems {
    /// Fresh systems with nothing registered.
    pub fn new() -> (s: GameSystems)
        ensures
            s.moving.wf(),
            s.moving.components_map() == Map::<i32, MovingComponent>::empty(),
    {
        GameSystems { moving: MovingSystem::new() }
    }
}

} // verus!

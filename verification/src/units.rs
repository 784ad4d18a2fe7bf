//! Combat units and the set that owns them. Units get their ids from a
//! monotonically increasing counter, and every pushed unit is registered
//! with the game systems it takes part in.

use vstd::prelude::*;

verus! {

use std::collections::HashMap;

use crate::systems::{GameSystems, MovingComponent};

broadcast use vstd::std_specs::hash::group_hash_axioms;

/// The movement allowance a mechanized unit starts with.
pub const MECHANIZED_MOVING_PTS: i32 = 15;

/// The component a freshly registered mechanized unit gets: full
/// allowance, no placement.
pub open spec fn fresh_mechanized_component(id: i32) -> MovingComponent {
    MovingComponent {
        def_moving_pts: MECHANIZED_MOVING_PTS,
        current_moving_pts: MECHANIZED_MOVING_PTS,
        occupation: None::<crate::hexagons::HexCoordinates>,
        owner_id: id,
    }
}

/// The kinds of combat unit.
#[derive(Debug, Clone, Copy, PartialEq, Eq, Structural)]
pub enum UnitType {
    Mechanized,
}

/// One combat unit: display name, kind, and its id in the unit set.
#[derive(Debug, Clone)]
pub struct Unit {
    name: String,
    kind: UnitType,
    id: i32,
}

impl Unit {
    /// The unit's display name.
    pub closed spec fn spec_name(self) -> Seq<char> {
        self.name@
    }

    /// The unit's kind.
    pub closed spec fn spec_kind(self) -> UnitType {
        self.kind
    }

    /// The unit's id.
    pub closed spec fn spec_id(self) -> i32 {
        self.id
    }

    /// Builds a unit.
    pub fn new(name: String, kind: UnitType, id: i32) -> (u: Unit)
        ensures
            u.spec_name() == name@,
            u.spec_kind() == kind,
            u.spec_id() == id,
    {
        Unit { name, kind, id }
    }

    /// The unit's display name.
    pub fn name(&self) -> (r: &str)
        ensures
            r@ == self.spec_name(),
    {
        self.name.as_str()
    }

    /// The unit's kind.
    pub fn kind(&self) -> (r: UnitType)
        ensures
            r == self.spec_kind(),
    {
        self.kind
    }

    /// The unit's id.
    pub fn id(&self) -> (r: i32)
        ensures
            r == self.spec_id(),
    {
        self.id
    }
}

/// Owns all units by id and hands out fresh ids; ids are never reused.
pub struct UnitSet {
    units: HashMap<i32, Unit>,
    current_free_id: i32,
}

impl UnitSet {
    /// The units by id.
    pub closed spec fn units_map(self) -> Map<i32, Unit> {
        self.units@
    }

    /// The next id the set will assign.
    pub closed spec fn next_id(self) -> i32 {
        self.current_free_id
    }

    /// Internal invariant: every assigned id lies below the counter.
    pub closed spec fn wf(self) -> bool {
        &&& self.current_free_id >= 0
        &&& forall|k: i32| #[trigger] self.units@.contains_key(k) ==> 0 <= k < self.current_free_id
    }

    /// An empty unit set; ids start at zero.
    pub fn new() -> (s: UnitSet)
        ensures
            s.wf(),
            s.units_map() == Map::<i32, Unit>::empty(),
            s.next_id() == 0,
    {
        UnitSet { units: HashMap::new(), current_free_id: 0 }
    }

    /// Creates a unit of the given kind under the next free id, registers
    /// it with the game systems it takes part in, and returns its id.
    pub fn push_unit(&mut self, systems: &mut GameSystems, kind: UnitType, name: String) -> (r:
        Result<i32, &'static str>)
        requires
            old(self).wf(),
            old(self).next_id() < i32::MAX,
            old(systems).moving.wf(),
        ensures
            final(self).wf(),
            final(systems).moving.wf(),
            match r {
                Ok(id) => {
                    &&& id == old(self).next_id()
                    &&& final(self).next_id() == old(self).next_id() + 1
                    &&& forall|k: i32|
                        #[trigger] final(self).units_map().contains_key(k) <==> (old(self).units_map().contains_key(k) || k == id)
                    &&& final(self).units_map()[id].spec_name() == name@
                    &&& final(self).units_map()[id].spec_kind() == kind
                    &&& final(self).units_map()[id].spec_id() == id
                    &&& forall|k: i32|
                        old(self).units_map().contains_key(k)
                            ==> #[trigger] final(self).units_map()[k] == old(self).units_map()[k]
                    &&& final(systems).moving.components_map()
                        == old(systems).moving.components_map().insert(
                        id,
                        fresh_mechanized_component(id),
                    )
                },
                Err(_) => false,
            },
    {
        let unit = Unit::new(name, kind, self.current_free_id);
        self.current_free_id = self.current_free_id + 1;
        let id = unit.id();

        UnitSet::register_unit_in_game_systems(systems, &unit)?;

        self.units.insert(id, unit);
        Ok(id)
    }

    /// Hands the unit's per-kind components to the owning systems.
    fn register_unit_in_game_systems(systems: &mut GameSystems, unit: &Unit) -> (r: Result<
        (),
        &'static str,
    >)
        requires
            old(systems).moving.wf(),
        ensures
            final(systems).moving.wf(),
            match r {
                Ok(_) => final(systems).moving.components_map()
                    == old(systems).moving.components_map().insert(
                    unit.spec_id(),
                    fresh_mechanized_component(unit.spec_id()),
                ),
                Err(_) => false,
            },
    {
        match unit.kind() {
            UnitType::Mechanized => {
                systems.moving.insert_component(
                    unit.id(),
                    MovingComponent::new(unit.id(), MECHANIZED_MOVING_PTS),
                );
            },
        }
        Ok(())
    }

    /// Builds the fixture unit set: three mechanized units named "test
    /// unit 0", "test unit 1" and "test unit 2", under ids 0, 1 and 2.
    pub fn create_test_unit_set(systems: &mut GameSystems) -> (s: UnitSet)
        requires
            old(systems).moving.wf(),
        ensures
            s.wf(),
            final(systems).moving.wf(),
            s.next_id() == 3,
            forall|k: i32| #[trigger] s.units_map().contains_key(k) <==> 0 <= k < 3,
            forall|k: i32|
                s.units_map().contains_key(k) ==> (#[trigger] s.units_map()[k]).spec_kind()
                    == UnitType::Mechanized && s.units_map()[k].spec_id() == k,
            s.units_map()[0].spec_name() == "test unit 0"@,
            s.units_map()[1].spec_name() == "test unit 1"@,
            s.units_map()[2].spec_name() == "test unit 2"@,
            final(systems).moving.components_map() == old(systems).moving.components_map().insert(
                0,
                fresh_mechanized_component(0),
            ).insert(1, fresh_mechanized_component(1)).insert(2, fresh_mechanized_component(2)),
    {
        let mut set = UnitSet::new();
        set.push_unit(systems, UnitType::Mechanized, "test unit 0".to_owned()).unwrap();
        set.push_unit(systems, UnitType::Mechanized, "test unit 1".to_owned()).unwrap();
        set.push_unit(systems, UnitType::Mechanized, "test unit 2".to_owned()).unwrap();
        set
    }
}

} // verus!

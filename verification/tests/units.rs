use hexfield::board::{Field, River};
use hexfield::hexagons::HexCoordinates;
use hexfield::systems::{
    cost_of_crossing_river, cost_of_entering_hex, Component, GameSystems, MovingComponent,
};
use hexfield::units::{Unit, UnitSet, UnitType, MECHANIZED_MOVING_PTS};

#[test]
fn movement_costs_per_kind() {
    assert_eq!(cost_of_entering_hex(Field::Plain), 1);
    assert_eq!(cost_of_entering_hex(Field::Forest), 2);
    assert_eq!(cost_of_crossing_river(River::Small), 6);
    assert_eq!(cost_of_crossing_river(River::Stream), 4);
}

#[test]
fn unit_accessors() {
    let unit = Unit::new("test unit".to_owned(), UnitType::Mechanized, 7);
    assert_eq!(unit.name(), "test unit");
    assert!(matches!(unit.kind(), UnitType::Mechanized));
    assert_eq!(unit.id(), 7);
}

#[test]
fn pushing_units_assigns_consecutive_ids() {
    let mut systems = GameSystems::new();
    let mut set = UnitSet::new();
    let id0 = set
        .push_unit(&mut systems, UnitType::Mechanized, "alpha".to_owned())
        .unwrap();
    let id1 = set
        .push_unit(&mut systems, UnitType::Mechanized, "bravo".to_owned())
        .unwrap();
    assert_eq!(id0, 0);
    assert_eq!(id1, 1);

    let c0 = systems.moving.get_component(0).unwrap();
    assert_eq!(c0.owner_id(), 0);
    assert_eq!(c0.def_moving_pts, MECHANIZED_MOVING_PTS);
    assert_eq!(c0.current_moving_pts, MECHANIZED_MOVING_PTS);
    assert_eq!(c0.occupation, None);
    assert!(systems.moving.get_component(1).is_some());
    assert!(systems.moving.get_component(2).is_none());
}

#[test]
fn create_test_unit_set_registers_three_units() {
    let mut systems = GameSystems::new();
    let _set = UnitSet::create_test_unit_set(&mut systems);
    for id in 0..3 {
        let c = systems.moving.get_component(id).unwrap();
        assert_eq!(c.owner_id, id);
        assert_eq!(c.current_moving_pts, MECHANIZED_MOVING_PTS);
    }
    assert!(systems.moving.get_component(3).is_none());
}

#[test]
fn reducing_moving_points() {
    let mut c = MovingComponent::new(4, 10);
    c.reduce_mv_pts(3).unwrap();
    assert_eq!(c.current_moving_pts, 7);
    c.reduce_mv_pts(7).unwrap();
    assert_eq!(c.current_moving_pts, 0);

    let failed = c.reduce_mv_pts(1);
    assert!(failed.is_err());
    assert_eq!(c.current_moving_pts, 0);

    // A negative cost adds points back.
    c.reduce_mv_pts(-4).unwrap();
    assert_eq!(c.current_moving_pts, 4);

    c.reest_mv_pts();
    assert_eq!(c.current_moving_pts, 10);
    assert_eq!(c.def_moving_pts, 10);
}

#[test]
fn get_on_hex_finds_occupying_units() {
    let here = HexCoordinates::new_axial(1, -1);
    let elsewhere = HexCoordinates::new_axial(0, 0);

    let mut systems = GameSystems::new();
    let mut set = UnitSet::new();
    for name in ["alpha", "bravo", "charlie"] {
        set.push_unit(&mut systems, UnitType::Mechanized, name.to_owned())
            .unwrap();
    }
    let mut c0 = *systems.moving.get_component(0).unwrap();
    c0.occupation = Some(here);
    systems.moving.insert_component(0, c0);
    let mut c2 = *systems.moving.get_component(2).unwrap();
    c2.occupation = Some(here);
    systems.moving.insert_component(2, c2);
    let mut c1 = *systems.moving.get_component(1).unwrap();
    c1.occupation = Some(elsewhere);
    systems.moving.insert_component(1, c1);

    let on_here = systems.moving.get_on_hex(here);
    assert_eq!(on_here, vec![0, 2]);
    let on_elsewhere = systems.moving.get_on_hex(elsewhere);
    assert_eq!(on_elsewhere, vec![1]);
    let nobody = systems.moving.get_on_hex(HexCoordinates::new_axial(5, 5));
    assert!(nobody.is_empty());
}

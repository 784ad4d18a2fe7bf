use hexfield::hexagons::HexCoordinates;

#[test]
fn equality() {
    let coord1 = HexCoordinates::new_axial(2, 3);
    let coord2 = HexCoordinates::new_cube(3, -5, 2);
    assert!(coord1 == coord2);
}

#[test]
fn addition() {
    let coord1 = HexCoordinates::new_axial(2, 3);
    let coord2 = HexCoordinates::new_axial(1, 5);
    let coord3 = HexCoordinates::new_axial(3, 8);

    assert_eq!(coord1.add(coord2), coord3);
}

#[test]
fn origin() {
    let coord1 = HexCoordinates::origin();
    let coord2 = HexCoordinates::new_axial(0, 0);
    assert_eq!(coord1, coord2);
}

#[test]
fn neighbors() {
    let coord = HexCoordinates::new_cube(2, -1, -1);
    let coord_n = coord.neighbor(3);
    let coord_n_correct = HexCoordinates::new_cube(1, 0, -1);
    assert_eq!(coord_n, coord_n_correct);
}

#[test]
fn distance() {
    let c1 = HexCoordinates::new_cube(1, 0, -1);
    let c2 = HexCoordinates::new_cube(3, -2, -1);
    assert_eq!(c1.distance_to(&c2), 2);
}

#[test]
fn axial_axes_balance() {
    // The derived cube axes of an axial coordinate always sum to zero.
    assert_eq!(
        HexCoordinates::new_axial(5, 7),
        HexCoordinates::new_cube(7, -12, 5)
    );
    assert_eq!(
        HexCoordinates::new_axial(-4, 9),
        HexCoordinates::new_cube(9, -5, -4)
    );
    assert_eq!(
        HexCoordinates::new_axial(0, 0),
        HexCoordinates::new_cube(0, 0, 0)
    );
}

#[test]
fn axial_accessors() {
    let c = HexCoordinates::new_axial(2, 3);
    assert_eq!(c.p(), 2);
    assert_eq!(c.q(), 3);
}

#[test]
fn distance_symmetric_and_zero() {
    let a = HexCoordinates::new_axial(-2, 5);
    let b = HexCoordinates::new_axial(4, -1);
    assert_eq!(a.distance_to(&b), b.distance_to(&a));
    assert_eq!(a.distance_to(&a), 0);
    assert_eq!(b.distance_to(&b), 0);
}

#[test]
fn every_neighbor_at_distance_one() {
    let c = HexCoordinates::new_axial(3, -7);
    let all = c.neighbors();
    for d in 0..6 {
        let n = c.neighbor(d);
        assert_eq!(c.distance_to(&n), 1);
        assert_eq!(all[d], n);
    }
}

#[test]
fn neighbor_vectors_exact() {
    let c = HexCoordinates::origin();
    assert_eq!(c.neighbor(0), HexCoordinates::new_cube(1, -1, 0));
    assert_eq!(c.neighbor(1), HexCoordinates::new_cube(1, 0, -1));
    assert_eq!(c.neighbor(2), HexCoordinates::new_cube(0, 1, -1));
    assert_eq!(c.neighbor(3), HexCoordinates::new_cube(-1, 1, 0));
    assert_eq!(c.neighbor(4), HexCoordinates::new_cube(-1, 0, 1));
    assert_eq!(c.neighbor(5), HexCoordinates::new_cube(0, -1, 1));
}

#[test]
fn subtraction_and_negation() {
    let a = HexCoordinates::new_cube(3, -5, 2);
    let b = HexCoordinates::new_cube(1, 0, -1);
    assert_eq!(a.sub(b), HexCoordinates::new_cube(2, -5, 3));
    assert_eq!(b.neg(), HexCoordinates::new_cube(-1, 0, 1));
    assert_eq!(a.sub(b), a.add(b.neg()));
}

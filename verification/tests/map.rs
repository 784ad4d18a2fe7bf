use std::collections::HashMap;

use hexfield::board::{Field, HexMap, HexSite, River, RiverSite};
use hexfield::errors::MapError;
use hexfield::graph::{dijkstra, BidirectionalGraph};
use hexfield::hexagons::HexCoordinates;

fn expected_fixture_graph() -> BidirectionalGraph {
    let mut graph = BidirectionalGraph::new();
    graph.insert_node(0, vec![]).unwrap();
    graph.insert_node(1, vec![0]).unwrap();
    graph.insert_node(2, vec![1]).unwrap();
    graph.insert_node(3, vec![0, 1]).unwrap();
    graph.insert_node(4, vec![1, 2, 3]).unwrap();
    graph.insert_node(5, vec![2, 4]).unwrap();
    graph.insert_node(6, vec![3, 4]).unwrap();
    graph.insert_node(7, vec![4, 5, 6]).unwrap();
    graph.insert_node(8, vec![5, 7]).unwrap();
    graph.insert_node(9, vec![1, 2]).unwrap();
    graph.insert_node(10, vec![4, 2]).unwrap();
    graph.insert_node(11, vec![4, 5]).unwrap();
    graph.insert_node(12, vec![5, 7]).unwrap();
    graph
}

#[test]
fn test_simple_map_insertions() {
    let mut map = HexMap::new();
    for r in -1..=1 {
        for q in -1..=1 {
            map.insert_hex(HexSite::new(HexCoordinates::new_axial(q, r), Field::Plain))
                .unwrap();
        }
    }
    map.insert_river(
        RiverSite::new(
            HexCoordinates::new_axial(0, -1),
            HexCoordinates::new_axial(1, -1),
            River::Stream,
        )
        .unwrap(),
    )
    .unwrap();
    map.insert_river(
        RiverSite::new(
            HexCoordinates::new_axial(0, 0),
            HexCoordinates::new_axial(1, -1),
            River::Stream,
        )
        .unwrap(),
    )
    .unwrap();
    map.insert_river(
        RiverSite::new(
            HexCoordinates::new_axial(0, 0),
            HexCoordinates::new_axial(1, 0),
            River::Stream,
        )
        .unwrap(),
    )
    .unwrap();
    map.insert_river(
        RiverSite::new(
            HexCoordinates::new_axial(1, 0),
            HexCoordinates::new_axial(0, 1),
            River::Stream,
        )
        .unwrap(),
    )
    .unwrap();

    let graph = expected_fixture_graph();
    assert_eq!(map.graph(), &graph);
}

#[test]
fn create_test_map_matches_fixture() {
    let map = HexMap::create_test_map();
    let graph = expected_fixture_graph();
    assert_eq!(map.graph(), &graph);
    assert_eq!(map.hexes().len(), 9);
    assert_eq!(map.rivers().len(), 4);
    for (id, hex) in map.hexes().iter() {
        assert!((0..9).contains(id));
        assert_eq!(hex.kind(), Field::Plain);
    }
    for (id, river) in map.rivers().iter() {
        assert!((9..13).contains(id));
        assert_eq!(river.kind(), River::Stream);
    }
}

#[test]
fn duplicate_hex_fails_and_leaves_map_unchanged() {
    let mut map = HexMap::new();
    map.insert_hex(HexSite::new(HexCoordinates::new_axial(0, 0), Field::Plain))
        .unwrap();
    map.insert_hex(HexSite::new(HexCoordinates::new_axial(1, 0), Field::Forest))
        .unwrap();
    let hexes_before = map.hexes().clone();
    let graph_before = map.graph().clone();

    let result = map.insert_hex(HexSite::new(HexCoordinates::new_axial(0, 0), Field::Forest));
    assert_eq!(result, Err(MapError::DuplicateEntity));
    assert_eq!(*map.hexes(), hexes_before);
    assert_eq!(*map.graph(), graph_before);
}

#[test]
fn river_between_distant_cells_is_invalid_geometry() {
    let result = RiverSite::new(
        HexCoordinates::new_axial(0, 0),
        HexCoordinates::new_axial(2, 0),
        River::Small,
    );
    assert!(matches!(result, Err(MapError::InvalidGeometry)));

    let same = RiverSite::new(
        HexCoordinates::new_axial(1, 1),
        HexCoordinates::new_axial(1, 1),
        River::Stream,
    );
    assert!(matches!(same, Err(MapError::InvalidGeometry)));
}

#[test]
fn river_without_hexes_is_missing_entity() {
    let mut map = HexMap::new();
    map.insert_hex(HexSite::new(HexCoordinates::new_axial(0, 0), Field::Plain))
        .unwrap();
    // Only one of the two sides carries a hex.
    let river = RiverSite::new(
        HexCoordinates::new_axial(0, 0),
        HexCoordinates::new_axial(1, 0),
        River::Small,
    )
    .unwrap();
    assert_eq!(map.insert_river(river), Err(MapError::MissingEntity));
}

#[test]
fn duplicate_river_fails_in_either_side_order() {
    let a = HexCoordinates::new_axial(0, 0);
    let b = HexCoordinates::new_axial(1, 0);
    let mut map = HexMap::new();
    map.insert_hex(HexSite::new(a, Field::Plain)).unwrap();
    map.insert_hex(HexSite::new(b, Field::Plain)).unwrap();
    map.insert_river(RiverSite::new(a, b, River::Small).unwrap())
        .unwrap();

    let same_order = RiverSite::new(a, b, River::Stream).unwrap();
    assert_eq!(map.insert_river(same_order), Err(MapError::DuplicateEntity));
    let swapped = RiverSite::new(b, a, River::Stream).unwrap();
    assert_eq!(map.insert_river(swapped), Err(MapError::DuplicateEntity));
}

#[test]
fn river_links_exactly_its_two_hexes() {
    let a = HexCoordinates::new_axial(0, 0);
    let b = HexCoordinates::new_axial(1, 0);
    let c = HexCoordinates::new_axial(0, 1);
    let mut map = HexMap::new();
    map.insert_hex(HexSite::new(a, Field::Plain)).unwrap();
    map.insert_hex(HexSite::new(b, Field::Forest)).unwrap();
    map.insert_hex(HexSite::new(c, Field::Plain)).unwrap();
    map.insert_river(RiverSite::new(a, b, River::Small).unwrap())
        .unwrap();

    let entries = map.graph().get_map().clone();
    // Hexes 0, 1 and 2 are mutually adjacent; river 3 touches only 0 and 1.
    assert_eq!(entries[0], (0, vec![1, 2, 3]));
    assert_eq!(entries[1], (1, vec![0, 2, 3]));
    assert_eq!(entries[2], (2, vec![0, 1]));
    assert_eq!(entries[3], (3, vec![0, 1]));

    let river = &map.rivers()[0].1;
    let (s1, s2) = river.sides();
    assert_eq!(*s1, a);
    assert_eq!(*s2, b);
    assert_eq!(river.kind(), River::Small);
}

#[test]
fn movement_costs_over_test_map() {
    // Terrain-entry costs: 1 per plain hex, 4 per stream crossing.
    let map = HexMap::create_test_map();
    let mut weights = HashMap::new();
    for (id, _) in map.hexes().iter() {
        weights.insert(*id, 1);
    }
    for (id, _) in map.rivers().iter() {
        weights.insert(*id, 4);
    }
    let (dist, _prev) = dijkstra(map.graph().get_map(), 4, &weights).unwrap();
    assert_eq!(dist[&4], 0);
    assert_eq!(dist[&2], 1);
    assert_eq!(dist[&0], 2);
    assert_eq!(dist[&10], 4);
}

#[test]
fn hex_site_accessors() {
    let c = HexCoordinates::new_axial(4, -2);
    let site = HexSite::new(c, Field::Forest);
    assert_eq!(*site.coord(), c);
    assert_eq!(site.kind(), Field::Forest);
}

use std::collections::HashMap;

use hexfield::errors::MapError;
use hexfield::graph::{dijkstra, BidirectionalGraph, INFINITY};

fn five_node_graph() -> BidirectionalGraph {
    let mut bg = BidirectionalGraph::new();
    bg.insert_node(0, vec![]).unwrap();
    bg.insert_node(1, vec![0]).unwrap();
    bg.insert_node(2, vec![1]).unwrap();
    bg.insert_node(3, vec![1, 2]).unwrap();
    bg.insert_node(4, vec![0, 3]).unwrap();
    bg
}

#[test]
fn inserting_test() {
    let mut bg = BidirectionalGraph::new();
    bg.insert_node(0, vec![]).unwrap();
    bg.insert_node(1, vec![]).unwrap();
    bg.insert_node(2, vec![1]).unwrap();
    bg.insert_node(3, vec![1, 2]).unwrap();
    bg.insert_node(4, vec![0, 3]).unwrap();

    let expected: Vec<(i32, Vec<i32>)> = vec![
        (0, vec![4]),
        (1, vec![2, 3]),
        (2, vec![1, 3]),
        (3, vec![1, 2, 4]),
        (4, vec![0, 3]),
    ];

    assert_eq!(*bg.get_map(), expected);
}

#[test]
fn removing_test() {
    let mut bg = BidirectionalGraph::new();
    bg.insert_node(0, vec![]).unwrap();
    bg.insert_node(1, vec![]).unwrap();
    bg.insert_node(2, vec![1]).unwrap();
    bg.insert_node(3, vec![1, 2]).unwrap();
    bg.insert_node(4, vec![0, 3]).unwrap();

    bg.remove_node(4).unwrap();

    let expected: Vec<(i32, Vec<i32>)> = vec![
        (0, vec![]),
        (1, vec![2, 3]),
        (2, vec![1, 3]),
        (3, vec![1, 2]),
    ];

    assert_eq!(*bg.get_map(), expected);
}

#[test]
fn test_dijkstra() {
    let bg = five_node_graph();

    let mut wg = HashMap::new();
    wg.insert(0, 3);
    wg.insert(1, 4);
    wg.insert(2, 3);
    wg.insert(3, 0);
    wg.insert(4, 1);

    let (dist, prev) = dijkstra(bg.get_map(), 3, &wg).unwrap();

    println!("dist:\n {:?}", dist);
    println!("prev:\n {:?}", prev);
    println!("graph: \n {:?}", bg);

    assert_eq!(dist[&0], 4);
    assert_eq!(dist[&1], 4);
    assert_eq!(dist[&2], 3);
    assert_eq!(dist[&3], 0);
    assert_eq!(dist[&4], 1);

    assert_eq!(prev[&0], 4);
    assert_eq!(prev[&1], 3);
    assert_eq!(prev[&2], 3);
    assert_eq!(prev[&4], 3);
}

#[test]
fn inserting_duplicate_node_fails() {
    let mut bg = BidirectionalGraph::new();
    bg.insert_node(7, vec![]).unwrap();
    let before = bg.clone();
    assert_eq!(bg.insert_node(7, vec![]), Err(MapError::DuplicateEntity));
    assert_eq!(bg, before);
}

#[test]
fn inserting_with_unknown_neighbor_fails() {
    let mut bg = BidirectionalGraph::new();
    bg.insert_node(0, vec![]).unwrap();
    let before = bg.clone();
    assert_eq!(bg.insert_node(1, vec![0, 5]), Err(MapError::MissingEntity));
    assert_eq!(bg, before);
}

#[test]
fn removing_absent_node_fails() {
    let mut bg = BidirectionalGraph::new();
    bg.insert_node(0, vec![]).unwrap();
    assert_eq!(bg.remove_node(3), Err(MapError::MissingEntity));
}

#[test]
fn insert_then_remove_restores_neighbor_sets() {
    // Inserting a node with an existing neighbor makes membership mutual;
    // removing it restores the neighbor's adjacency exactly.
    let mut bg = BidirectionalGraph::new();
    bg.insert_node(10, vec![]).unwrap();
    bg.insert_node(11, vec![10]).unwrap();
    let before = bg.clone();

    bg.insert_node(12, vec![11]).unwrap();
    let entries = bg.get_map();
    assert_eq!(entries[1], (11, vec![10, 12]));
    assert_eq!(entries[2], (12, vec![11]));

    bg.remove_node(12).unwrap();
    assert_eq!(bg, before);
}

#[test]
fn prev_chain_reaches_source() {
    // Path reconstruction is the caller's job: repeated predecessor lookup
    // from any reached node walks back to the source.
    let bg = five_node_graph();
    let mut wg = HashMap::new();
    wg.insert(0, 3);
    wg.insert(1, 4);
    wg.insert(2, 3);
    wg.insert(3, 0);
    wg.insert(4, 1);
    let (_dist, prev) = dijkstra(bg.get_map(), 3, &wg).unwrap();

    for start in [0, 1, 2, 4] {
        let mut node = start;
        let mut steps = 0;
        while node != 3 {
            node = prev[&node];
            steps += 1;
            assert!(steps <= prev.len());
        }
    }
}

#[test]
fn dijkstra_missing_weight_fails() {
    let bg = five_node_graph();
    let mut wg = HashMap::new();
    wg.insert(3, 0);
    wg.insert(1, 4);
    // Node 2 is reachable from 3 but has no weight entry.
    assert_eq!(dijkstra(bg.get_map(), 3, &wg), Err(MapError::MissingEntity));
}

#[test]
fn dijkstra_unreachable_keeps_sentinel() {
    let mut bg = BidirectionalGraph::new();
    bg.insert_node(0, vec![]).unwrap();
    bg.insert_node(1, vec![0]).unwrap();
    bg.insert_node(2, vec![]).unwrap();
    let mut wg = HashMap::new();
    wg.insert(0, 5);
    wg.insert(1, 2);
    wg.insert(2, 1);
    let (dist, prev) = dijkstra(bg.get_map(), 0, &wg).unwrap();
    assert_eq!(dist[&0], 0);
    assert_eq!(dist[&1], 2);
    assert_eq!(dist[&2], INFINITY);
    assert_eq!(prev.get(&2), None);
    assert_eq!(prev.get(&0), None);
}

#[test]
fn error_descriptions() {
    assert_eq!(MapError::DuplicateEntity.describe(), "duplicate entity");
    assert_eq!(MapError::MissingEntity.describe(), "missing entity");
    assert_eq!(MapError::InvalidGeometry.describe(), "invalid geometry");
    assert_eq!(
        MapError::InternalInconsistency.describe(),
        "internal inconsistency"
    );
}

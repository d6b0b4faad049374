use practice_programs::dijkstra_practice::dijkstra::{DistanceData, NodeData};
use practice_programs::dijkstra_practice::PathData;
use practice_programs::dijkstra_practice::{Graph, GraphError};
use std::cmp::Ordering;

fn example_graph() -> Graph<char, 11> {
    let nodes: [char; 11] = std::array::from_fn(|index| ('a'..='z').nth(index).unwrap());
    let mut g = Graph::with_nodes(nodes);

    //     b---9---e            i
    //    /|\     /|\          /
    //   2 | 8   4 1 2        4
    //  /  |  \ /  |  \      /
    // a   2   d-3-f-1-h    j
    //  \  |  / \  |  /
    //   5 | 2   1 1 3
    //    \|/     \|/
    //     c---4---g
    g.set_edge_symmetric(&'a', &'b', 2).unwrap();
    g.set_edge_symmetric(&'a', &'c', 5).unwrap();
    g.set_edge_symmetric(&'b', &'c', 2).unwrap();
    g.set_edge_symmetric(&'b', &'d', 8).unwrap();
    g.set_edge_symmetric(&'b', &'e', 9).unwrap();
    g.set_edge_symmetric(&'c', &'d', 2).unwrap();
    g.set_edge_symmetric(&'c', &'g', 4).unwrap();
    g.set_edge_symmetric(&'d', &'e', 4).unwrap();
    g.set_edge_symmetric(&'d', &'f', 3).unwrap();
    g.set_edge_symmetric(&'d', &'g', 1).unwrap();
    g.set_edge_symmetric(&'e', &'f', 1).unwrap();
    g.set_edge_symmetric(&'e', &'h', 2).unwrap();
    g.set_edge_symmetric(&'f', &'g', 1).unwrap();
    g.set_edge_symmetric(&'f', &'h', 1).unwrap();
    g.set_edge_symmetric(&'g', &'h', 3).unwrap();
    g.set_edge_symmetric(&'i', &'j', 4).unwrap();
    g
}

#[test]
fn example_path_from_a_to_h() {
    let g = example_graph();
    assert_eq!(
        g.shortest_path(&'a', &'h').unwrap(),
        Some(PathData {
            path: vec![&'a', &'b', &'c', &'d', &'g', &'f', &'h'],
            distance: 9
        })
    );
}

#[test]
fn example_path_from_a_to_itself() {
    let g = example_graph();
    assert_eq!(
        g.shortest_path(&'a', &'a').unwrap(),
        Some(PathData { path: vec![&'a'], distance: 0 })
    );
}

#[test]
fn example_path_from_j_to_i() {
    let g = example_graph();
    assert_eq!(
        g.shortest_path(&'j', &'i').unwrap(),
        Some(PathData { path: vec![&'j', &'i'], distance: 4 })
    );
}

#[test]
fn example_unreachable_node_has_no_path() {
    let g = example_graph();
    assert!(g.shortest_path(&'a', &'j').unwrap().is_none());
    assert!(g.shortest_path(&'a', &'k').unwrap().is_none());
}

#[test]
fn every_path_from_a_is_a_walk_along_edges() {
    let g = example_graph();
    for dest in ['b', 'c', 'd', 'e', 'f', 'g', 'h'] {
        let found = g.shortest_path(&'a', &dest).unwrap().unwrap();
        assert_eq!(*found.path[0], 'a');
        assert_eq!(**found.path.last().unwrap(), dest);
        let mut weight = 0;
        for pair in found.path.windows(2) {
            let from = g.get_node_index(pair[0]).unwrap();
            let to = g.get_node_index(pair[1]).unwrap();
            assert_ne!(g.get_edge(from, to), Some(0));
            weight += g.get_edge(from, to).unwrap();
        }
        assert_eq!(weight, found.distance);
    }
}

#[test]
fn shortest_path_reports_missing_nodes() {
    let g = example_graph();
    assert_eq!(g.shortest_path(&'z', &'a'), Err(GraphError::FromNodeNotFound));
    assert_eq!(g.shortest_path(&'z', &'y'), Err(GraphError::FromNodeNotFound));
    assert_eq!(g.shortest_path(&'a', &'z'), Err(GraphError::DestNodeNotFound));
}

#[test]
fn with_nodes_has_no_edges() {
    let g: Graph<u32, 3> = Graph::with_nodes([10, 20, 30]);
    for i in 0..3 {
        for j in 0..3 {
            assert_eq!(g.get_edge(i, j), Some(0));
        }
        assert!(g.neighbors(i).is_empty());
    }
    assert_eq!(g.get_edge(3, 0), None);
    assert_eq!(g.get_edge(0, 3), None);
}

#[test]
fn set_edge_is_one_directional() {
    let mut g: Graph<u32, 3> = Graph::with_nodes([10, 20, 30]);
    assert_eq!(g.set_edge(&10, &30, 7), Ok(()));
    assert_eq!(g.get_edge(0, 2), Some(7));
    assert_eq!(g.get_edge(2, 0), Some(0));
    assert_eq!(g.set_edge(&10, &30, 9), Ok(()));
    assert_eq!(g.get_edge(0, 2), Some(9));
}

#[test]
fn set_edge_errors_leave_graph_unchanged() {
    let mut g: Graph<u32, 2> = Graph::with_nodes([1, 2]);
    assert_eq!(g.set_edge(&5, &2, 3), Err(GraphError::FromNodeNotFound));
    assert_eq!(g.set_edge(&5, &6, 3), Err(GraphError::FromNodeNotFound));
    assert_eq!(g.set_edge(&1, &6, 3), Err(GraphError::DestNodeNotFound));
    assert_eq!(g.set_edge_symmetric(&1, &6, 3), Err(GraphError::DestNodeNotFound));
    for i in 0..2 {
        for j in 0..2 {
            assert_eq!(g.get_edge(i, j), Some(0));
        }
    }
}

#[test]
fn set_edge_symmetric_sets_both_directions() {
    let mut g: Graph<u32, 3> = Graph::with_nodes([1, 2, 3]);
    assert_eq!(g.set_edge_symmetric(&1, &3, 4), Ok(()));
    assert_eq!(g.get_edge(0, 2), Some(4));
    assert_eq!(g.get_edge(2, 0), Some(4));
    assert_eq!(g.get_edge(0, 1), Some(0));
}

#[test]
fn get_edge_mut_writes_through() {
    let mut g: Graph<u32, 2> = Graph::with_nodes([1, 2]);
    *g.get_edge_mut(1, 0).unwrap() = 6;
    assert_eq!(g.get_edge(1, 0), Some(6));
    assert!(g.get_edge_mut(2, 0).is_none());
}

#[test]
fn get_node_index_finds_first_equal_node() {
    let g: Graph<u32, 4> = Graph::with_nodes([5, 7, 5, 9]);
    assert_eq!(g.get_node_index(&5), Some(0));
    assert_eq!(g.get_node_index(&9), Some(3));
    assert_eq!(g.get_node_index(&8), None);
    assert_eq!(g.get_node(1), Some(&7));
    assert_eq!(g.get_node(4), None);
}

#[test]
fn neighbors_lists_nonzero_edges_in_order() {
    let g = example_graph();
    assert_eq!(g.neighbors(3), vec![(1, 8), (2, 2), (4, 4), (5, 3), (6, 1)]);
    assert_eq!(g.neighbors(10), vec![]);
    assert_eq!(g.neighbors(11), vec![]);
}

#[test]
fn build_path_follows_predecessors() {
    let g: Graph<char, 3> = Graph::with_nodes(['x', 'y', 'z']);
    let data = vec![
        NodeData {
            distance_data: Some(DistanceData { predecessor: 0, distance: 0 }),
            is_finalized: true,
        },
        NodeData {
            distance_data: Some(DistanceData { predecessor: 2, distance: 5 }),
            is_finalized: true,
        },
        NodeData {
            distance_data: Some(DistanceData { predecessor: 0, distance: 2 }),
            is_finalized: true,
        },
    ];
    assert_eq!(
        g.build_path(0, 1, &data),
        Some(PathData { path: vec![&'x', &'z', &'y'], distance: 5 })
    );
    let unreached = vec![data[0], data[1], NodeData::default()];
    assert_eq!(g.build_path(0, 2, &unreached), None);
}

#[test]
fn build_path_needs_no_edges() {
    let g: Graph<char, 3> = Graph::with_nodes(['a', 'b', 'c']);
    let nd = [
        NodeData {
            distance_data: Some(DistanceData { predecessor: 0, distance: 0 }),
            is_finalized: true,
        },
        NodeData {
            distance_data: Some(DistanceData { predecessor: 0, distance: 2 }),
            is_finalized: true,
        },
        NodeData {
            distance_data: Some(DistanceData { predecessor: 1, distance: 5 }),
            is_finalized: true,
        },
    ];
    assert_eq!(
        g.build_path(0, 2, &nd),
        Some(PathData { path: vec![&'a', &'b', &'c'], distance: 5 })
    );
    // a chain that stops at a node with no record
    let broken = [NodeData::default(), nd[1], nd[2]];
    assert_eq!(
        g.build_path(0, 2, &broken),
        Some(PathData { path: vec![&'a', &'b', &'c'], distance: 5 })
    );
    let broken = [nd[0], NodeData::default(), nd[2]];
    assert_eq!(
        g.build_path(0, 2, &broken),
        Some(PathData { path: vec![&'b', &'c'], distance: 5 })
    );
}

#[test]
fn node_data_accessors() {
    let reached = NodeData {
        distance_data: Some(DistanceData { predecessor: 4, distance: 11 }),
        is_finalized: false,
    };
    assert_eq!(reached.distance(), Some(11));
    assert_eq!(reached.predecessor(), Some(4));
    let unreached = NodeData::default();
    assert_eq!(unreached.distance(), None);
    assert_eq!(unreached.predecessor(), None);
    assert!(!unreached.is_finalized);
}

#[test]
fn node_data_is_ordered_by_distance() {
    let near = NodeData {
        distance_data: Some(DistanceData { predecessor: 9, distance: 1 }),
        is_finalized: true,
    };
    let far = NodeData {
        distance_data: Some(DistanceData { predecessor: 0, distance: 7 }),
        is_finalized: false,
    };
    let unreached = NodeData::default();
    assert_eq!(near.partial_cmp(&far), Some(Ordering::Less));
    assert_eq!(far.partial_cmp(&near), Some(Ordering::Greater));
    assert_eq!(unreached.partial_cmp(&near), Some(Ordering::Less));
    assert_eq!(near.partial_cmp(&near), Some(Ordering::Equal));
}

#[test]
fn search_takes_the_nearest_node_first() {
    // a-c 1, c-b 1, a-b 10, b-d 1: b is first reached at 10 but is only
    // expanded once it is known to lie at 2, through c.
    let mut g: Graph<char, 4> = Graph::with_nodes(['a', 'b', 'c', 'd']);
    g.set_edge_symmetric(&'a', &'c', 1).unwrap();
    g.set_edge_symmetric(&'c', &'b', 1).unwrap();
    g.set_edge_symmetric(&'a', &'b', 10).unwrap();
    g.set_edge_symmetric(&'b', &'d', 1).unwrap();
    assert_eq!(
        g.shortest_path(&'a', &'d').unwrap(),
        Some(PathData { path: vec![&'a', &'c', &'b', &'d'], distance: 3 })
    );
    assert_eq!(
        g.shortest_path(&'a', &'b').unwrap(),
        Some(PathData { path: vec![&'a', &'c', &'b'], distance: 2 })
    );
}

#[test]
fn lighter_longer_path_beats_direct_edge() {
    let mut g: Graph<char, 4> = Graph::with_nodes(['s', 'z', 't', 'y']);
    g.set_edge_symmetric(&'s', &'z', 10).unwrap();
    g.set_edge_symmetric(&'s', &'y', 1).unwrap();
    g.set_edge_symmetric(&'y', &'z', 1).unwrap();
    g.set_edge_symmetric(&'z', &'t', 1).unwrap();
    g.set_edge_symmetric(&'s', &'t', 5).unwrap();
    assert_eq!(
        g.shortest_path(&'s', &'t').unwrap(),
        Some(PathData { path: vec![&'s', &'y', &'z', &'t'], distance: 3 })
    );
}

#[test]
fn one_way_edges_are_followed_one_way() {
    let mut g: Graph<u8, 3> = Graph::with_nodes([0, 1, 2]);
    g.set_edge(&0, &1, 4).unwrap();
    g.set_edge(&1, &2, 4).unwrap();
    g.set_edge(&2, &0, 1).unwrap();
    assert_eq!(
        g.shortest_path(&0, &2).unwrap(),
        Some(PathData { path: vec![&0, &1, &2], distance: 8 })
    );
    assert_eq!(
        g.shortest_path(&2, &1).unwrap(),
        Some(PathData { path: vec![&2, &0, &1], distance: 5 })
    );
}

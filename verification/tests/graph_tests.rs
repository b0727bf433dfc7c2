use knights_tour::graph::{Edge, Graph, Node};
use knights_tour::pheromone::UNIT;

fn targets_of(graph: &Graph, square: i8) -> Vec<i8> {
    graph.node(&square).edges.iter().map(|edge| edge.target).collect()
}

#[test]
fn corner_square_has_two_moves() {
    let graph = Graph::new(UNIT);
    let node = graph.node(&0);
    assert_eq!((node.x, node.y), (0, 0));
    assert_eq!(targets_of(&graph, 0), vec![17, 10]);
    assert_eq!(node.edge(&0).pheromone, UNIT);
    assert_eq!(node.edge(&1).pheromone, UNIT);
}

#[test]
fn central_square_has_eight_moves_in_scan_order() {
    let graph = Graph::new(UNIT);
    let node = graph.node(&27);
    assert_eq!((node.x, node.y), (3, 3));
    assert_eq!(targets_of(&graph, 27), vec![17, 33, 10, 42, 12, 44, 21, 37]);
}

#[test]
fn every_corner_has_two_moves() {
    let graph = Graph::new(1);
    assert_eq!(targets_of(&graph, 7), vec![13, 22]);
    assert_eq!(targets_of(&graph, 56), vec![41, 50]);
    assert_eq!(targets_of(&graph, 63), vec![53, 46]);
}

#[test]
fn every_move_is_a_knight_move_on_the_board() {
    let graph = Graph::new(7);
    assert_eq!(graph.nodes.len(), 64);
    let mut moves = 0;
    for square in 0..64i8 {
        let node = graph.node(&square);
        assert_eq!(node.x, square % 8);
        assert_eq!(node.y, square / 8);
        assert!(node.edges.len() >= 2 && node.edges.len() <= 8);
        for edge in &node.edges {
            assert!(edge.target >= 0 && edge.target < 64);
            let dx = (edge.target % 8 - node.x) as i32;
            let dy = (edge.target / 8 - node.y) as i32;
            assert_eq!(dx * dx + dy * dy, 5);
            assert_eq!(edge.pheromone, 7);
        }
        moves += node.edges.len();
    }
    assert_eq!(moves, 336);
}

#[test]
fn every_knight_move_is_among_the_moves_once() {
    let graph = Graph::new(0);
    for from in 0..64i8 {
        let targets = targets_of(&graph, from);
        for to in 0..64i8 {
            let dx = (to % 8 - from % 8) as i32;
            let dy = (to / 8 - from / 8) as i32;
            let found = targets.iter().filter(|&&target| target == to).count();
            assert_eq!(found, if dx * dx + dy * dy == 5 { 1 } else { 0 });
        }
    }
}

#[test]
fn corner_has_fewer_moves_than_centre() {
    let graph = Graph::new(UNIT);
    assert!(graph.node(&0).edges.len() < graph.node(&27).edges.len());
    assert_eq!(graph.node(&0).edges.len(), 2);
    assert_eq!(graph.node(&27).edges.len(), 8);
}

#[test]
fn evaporation_of_a_quarter_leaves_three_quarters() {
    let mut graph = Graph::new(UNIT);
    graph.evaporate_pheromones(&(UNIT / 4));
    for square in 0..64i8 {
        for edge in &graph.node(&square).edges {
            assert_eq!(edge.pheromone, 3 * (UNIT / 4));
        }
    }
    assert_eq!(targets_of(&graph, 0), vec![17, 10]);
}

#[test]
fn evaporation_at_rate_zero_changes_nothing() {
    let mut graph = Graph::new(12345);
    graph.evaporate_pheromones(&0);
    for square in 0..64i8 {
        for edge in &graph.node(&square).edges {
            assert_eq!(edge.pheromone, 12345);
        }
    }
}

#[test]
fn evaporation_rounds_down() {
    let mut graph = Graph::new(3);
    graph.evaporate_pheromones(&(UNIT / 2));
    assert_eq!(graph.node(&0).edge(&0).pheromone, 1);
    graph.evaporate_pheromones(&(UNIT / 2));
    assert_eq!(graph.node(&0).edge(&0).pheromone, 0);
    graph.evaporate_pheromones(&(UNIT - 1));
    assert_eq!(graph.node(&0).edge(&0).pheromone, 0);
}

#[test]
fn evaporation_multiplies_each_level() {
    let mut graph = Graph::new(1_000_000_007);
    graph.node_mut(&5).edge_mut(&1).pheromone = u64::MAX;
    let rate: u64 = 123_456_789;
    graph.evaporate_pheromones(&rate);
    let keep = (UNIT - rate) as u128;
    assert_eq!(
        graph.node(&5).edge(&1).pheromone as u128,
        (u64::MAX as u128) * keep / (UNIT as u128)
    );
    assert_eq!(
        graph.node(&5).edge(&0).pheromone as u128,
        1_000_000_007u128 * keep / (UNIT as u128)
    );
}

#[test]
fn accessors_reach_nodes_and_edges() {
    let mut graph = Graph::new(9);
    graph.node_mut(&10).edge_mut(&2).pheromone = 11;
    assert_eq!(graph.node(&10).edge(&2).pheromone, 11);
    assert_eq!(graph.node(&10).edge(&1).pheromone, 9);
    assert_eq!(graph.node(&11).edge(&2).pheromone, 9);
    let target = graph.node(&10).edge(&2).target;
    assert_eq!(graph.node_mut(&10).edge_mut(&2).target, target);
}

#[test]
fn new_node_and_edge_hold_what_they_are_given() {
    let node = Node::new(42);
    assert_eq!((node.x, node.y), (2, 5));
    assert!(node.edges.is_empty());
    let edge = Edge::new(5, 17);
    assert_eq!((edge.pheromone, edge.target), (5, 17));
}

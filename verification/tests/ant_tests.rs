use knights_tour::ant::Ant;
use knights_tour::graph::Graph;
use knights_tour::pheromone::UNIT;

const HALF: u32 = 1 << 31;

/// The draws that lead an ant over equal levels from square 0 through every square.
const TOUR_DRAWS: [u32; 63] = [
    2147483648, 858993459, 1431655765, 4294967295, 4294967295, 4294967295, 4294967295, 3435973836,
    4294967295, 4294967295, 4294967295, 4294967295, 2147483648, 858993459, 2147483648, 2147483648,
    858993459, 1431655765, 2147483648, 1073741824, 4294967295, 4294967295, 4294967295, 4294967295,
    4294967295, 4294967295, 2147483648, 1431655765, 1073741824, 2147483648, 2863311530, 2863311530,
    2863311530, 4294967295, 4294967295, 2147483648, 2147483648, 1431655765, 1431655765, 2863311530,
    1431655765, 2863311530, 4294967295, 1431655765, 1431655765, 4294967295, 2147483648, 2863311530,
    4294967295, 4294967295, 2147483648, 2147483648, 2147483648, 2147483648, 2147483648, 4294967295,
    1431655765, 2147483648, 2147483648, 4294967295, 2147483648, 4294967295, 4294967295,
];

const TOUR_SQUARES: [i8; 64] = [
    0, 17, 32, 49, 59, 53, 63, 46, 61, 55, 38, 23, 6, 12, 2, 8, 25, 40, 57, 42, 48, 58, 52, 62, 47,
    30, 15, 5, 11, 1, 16, 10, 4, 21, 31, 14, 20, 3, 9, 24, 18, 33, 27, 37, 43, 26, 36, 19, 13, 7,
    22, 28, 34, 51, 41, 56, 50, 35, 29, 44, 54, 60, 45, 39,
];

const TOUR_MOVES: [i8; 63] = [
    0, 1, 1, 3, 3, 5, 1, 3, 3, 2, 4, 2, 0, 0, 0, 0, 1, 1, 1, 1, 2, 3, 5, 2, 2, 4, 0, 0, 0, 0, 2, 4,
    2, 7, 2, 1, 2, 0, 0, 2, 3, 4, 7, 1, 2, 7, 2, 6, 4, 1, 1, 1, 5, 0, 1, 1, 3, 6, 3, 7, 1, 2, 6,
];

fn assert_is_walk(ant: &Ant, graph: &Graph) {
    assert_eq!(ant.tabu.len(), ant.moves.len() + 1);
    assert!(ant.moves.len() <= 63);
    assert_eq!(ant.tabu[0], ant.start);
    assert_eq!(*ant.tabu.last().unwrap(), ant.current);
    for (i, square) in ant.tabu.iter().enumerate() {
        assert!(*square >= 0 && *square < 64);
        assert!(!ant.tabu[..i].contains(square));
    }
    for (i, k) in ant.moves.iter().enumerate() {
        assert_eq!(graph.node(&ant.tabu[i]).edge(k).target, ant.tabu[i + 1]);
    }
}

fn has_open_move(ant: &Ant, graph: &Graph) -> bool {
    graph.node(&ant.current).edges.iter().any(|edge| !ant.tabu.contains(&edge.target))
}

#[test]
fn new_ant_stands_on_its_start() {
    let ant = Ant::new(5);
    assert_eq!(ant.start, 5);
    assert_eq!(ant.current, 5);
    assert_eq!(ant.tabu, vec![5]);
    assert!(ant.moves.is_empty());
    assert!(ant.has_entered(5));
    assert!(!ant.has_entered(6));
}

#[test]
fn candidates_at_a_corner_are_both_moves() {
    let graph = Graph::new(UNIT);
    let ant = Ant::new(0);
    let (indices, weights) = ant.candidates(&graph);
    assert_eq!(indices, vec![0, 1]);
    assert_eq!(weights, vec![UNIT, UNIT]);
}

#[test]
fn candidates_leave_out_entered_squares() {
    let mut graph = Graph::new(UNIT);
    graph.node_mut(&17).edge_mut(&3).pheromone = 77;
    let mut ant = Ant::new(0);
    assert!(ant.advance(&graph, 0));
    assert_eq!(ant.current, 17);
    // The moves of square 17 lead to 0, 32, 2, 34, 11, 27.
    let (indices, weights) = ant.candidates(&graph);
    assert_eq!(indices, vec![1, 2, 3, 4, 5]);
    assert_eq!(weights, vec![UNIT, UNIT, 77, UNIT, UNIT]);
}

#[test]
fn equal_levels_make_the_choice_uniform() {
    let graph = Graph::new(UNIT);
    let mut low = Ant::new(0);
    assert!(low.advance(&graph, HALF));
    assert_eq!((low.current, low.moves.clone()), (17, vec![0]));
    let mut high = Ant::new(0);
    assert!(high.advance(&graph, HALF + 1));
    assert_eq!((high.current, high.moves.clone()), (10, vec![1]));
    // Five moves are open at square 17: each has a fifth of the draws.
    let fifth: u64 = (1u64 << 32) / 5;
    for (j, target) in [32i8, 2, 34, 11, 27].iter().enumerate() {
        let mut first = Ant::new(0);
        first.advance(&graph, 0);
        assert!(first.advance(&graph, (j as u64 * fifth + 1) as u32));
        assert_eq!(first.current, *target);
        let mut last = Ant::new(0);
        last.advance(&graph, 0);
        assert!(last.advance(&graph, ((j as u64 + 1) * fifth) as u32));
        assert_eq!(last.current, *target);
    }
}

#[test]
fn stronger_pheromone_draws_more() {
    let mut graph = Graph::new(UNIT);
    graph.node_mut(&0).edge_mut(&1).pheromone = 3 * UNIT;
    let quarter: u32 = 1 << 30;
    let mut ant = Ant::new(0);
    ant.advance(&graph, quarter);
    assert_eq!(ant.current, 17);
    let mut ant = Ant::new(0);
    ant.advance(&graph, quarter + 1);
    assert_eq!(ant.current, 10);
}

#[test]
fn levels_of_zero_fall_back_to_a_uniform_choice() {
    let graph = Graph::new(0);
    let mut ant = Ant::new(0);
    assert!(ant.advance(&graph, HALF + 1));
    assert_eq!(ant.current, 10);
    let mut ant = Ant::new(0);
    assert!(ant.advance(&graph, HALF));
    assert_eq!(ant.current, 17);
}

#[test]
fn advance_stops_at_a_dead_end() {
    let graph = Graph::new(UNIT);
    let mut ant = Ant::new(0);
    let mut steps = 0;
    while ant.advance(&graph, 0) {
        steps += 1;
        assert!(steps <= 63);
    }
    assert_eq!(steps, 43);
    assert_eq!(ant.current, 3);
    let before = (ant.current, ant.tabu.clone(), ant.moves.clone());
    assert!(!ant.advance(&graph, 12345));
    assert_eq!(before, (ant.current, ant.tabu.clone(), ant.moves.clone()));
    assert_is_walk(&ant, &graph);
}

#[test]
fn tour_with_zero_draws_takes_the_first_open_move() {
    let graph = Graph::new(UNIT);
    let mut ant = Ant::new(0);
    let complete = ant.tour_with(&graph, &vec![0; 63]);
    assert!(!complete);
    assert_eq!(
        ant.tabu,
        vec![
            0, 17, 32, 49, 34, 24, 9, 26, 16, 1, 18, 8, 25, 40, 57, 42, 48, 33, 50, 56, 41, 58, 43,
            28, 11, 5, 20, 10, 27, 12, 2, 19, 4, 21, 36, 51, 45, 35, 52, 37, 22, 7, 13, 3
        ]
    );
    assert_eq!(
        ant.moves,
        vec![
            0, 1, 1, 1, 0, 0, 1, 0, 0, 1, 0, 0, 1, 1, 1, 1, 0, 3, 1, 0, 3, 2, 4, 2, 4, 1, 0, 3, 4,
            0, 2, 4, 2, 3, 3, 4, 0, 5, 3, 4, 4, 0, 0
        ]
    );
    assert!(!has_open_move(&ant, &graph));
    assert_is_walk(&ant, &graph);
}

#[test]
fn tour_with_largest_draws_takes_the_last_open_move() {
    let graph = Graph::new(UNIT);
    let mut ant = Ant::new(0);
    assert!(!ant.tour_with(&graph, &vec![u32::MAX; 63]));
    assert_eq!(ant.moves.len(), 46);
    assert_eq!(ant.current, 15);
    assert_eq!(&ant.tabu[..5], &[0, 10, 20, 30, 47]);
    assert_is_walk(&ant, &graph);
}

#[test]
fn tour_with_stops_when_the_draws_are_used_up() {
    let graph = Graph::new(UNIT);
    let mut ant = Ant::new(0);
    assert!(!ant.tour_with(&graph, &vec![0, 0]));
    assert_eq!(ant.tabu, vec![0, 17, 32]);
    assert_eq!(ant.moves, vec![0, 1]);
    assert!(!ant.tour_with(&graph, &vec![]));
    assert_eq!(ant.tabu, vec![0, 17, 32]);
    assert!(!ant.tour_with(&graph, &vec![0]));
    assert_eq!(ant.tabu, vec![0, 17, 32, 49]);
}

#[test]
fn complete_tour_has_63_moves_and_enters_every_square() {
    let graph = Graph::new(UNIT);
    let mut ant = Ant::new(0);
    let complete = ant.tour_with(&graph, &TOUR_DRAWS.to_vec());
    assert!(complete);
    assert_eq!(ant.moves, TOUR_MOVES.to_vec());
    assert_eq!(ant.tabu, TOUR_SQUARES.to_vec());
    for square in 0..64i8 {
        assert!(ant.has_entered(square));
    }
    assert!(!has_open_move(&ant, &graph));
    assert_is_walk(&ant, &graph);
}

#[test]
fn one_move_short_of_a_tour_is_incomplete() {
    let graph = Graph::new(UNIT);
    let mut ant = Ant::new(0);
    assert!(!ant.tour_with(&graph, &TOUR_DRAWS[..62].to_vec()));
    assert_eq!(ant.moves.len(), 62);
    assert!(!ant.has_entered(39));
    assert!(ant.tour_with(&graph, &vec![7]));
    assert_eq!(ant.moves.len(), 63);
    assert!(ant.has_entered(39));
}

#[test]
fn random_tour_is_a_walk_to_a_dead_end() {
    let graph = Graph::new(UNIT);
    for start in 0..64i8 {
        let mut ant = Ant::new(start);
        let complete = ant.tour(&graph);
        assert_is_walk(&ant, &graph);
        assert!(!has_open_move(&ant, &graph));
        assert_eq!(complete, ant.moves.len() == 63);
        assert_eq!(complete, (0..64i8).all(|square| ant.has_entered(square)));
        assert!(ant.moves.len() >= 1);
    }
}

#[test]
fn pheromone_of_a_short_walk() {
    let mut graph = Graph::new(UNIT);
    let mut ant = Ant::new(0);
    ant.tour_with(&graph, &vec![0, 0]);
    ant.lay_pheromone(&mut graph);
    assert_eq!(graph.node(&0).edge(&0).pheromone, UNIT + 136_348_168);
    assert_eq!(graph.node(&17).edge(&1).pheromone, UNIT + 69_273_666);
    for square in 0..64i8 {
        for (k, edge) in graph.node(&square).edges.iter().enumerate() {
            if !((square == 0 && k == 0) || (square == 17 && k == 1)) {
                assert_eq!(edge.pheromone, UNIT);
            }
        }
    }
}

#[test]
fn pheromone_of_a_complete_tour_is_the_full_rate_on_each_move() {
    let mut graph = Graph::new(5);
    let mut ant = Ant::new(0);
    assert!(ant.tour_with(&graph, &TOUR_DRAWS.to_vec()));
    ant.lay_pheromone(&mut graph);
    let mut raised = 0;
    for square in 0..64i8 {
        for (k, edge) in graph.node(&square).edges.iter().enumerate() {
            let step = TOUR_SQUARES.iter().position(|entered| *entered == square).unwrap();
            if step < 63 && TOUR_MOVES[step] as usize == k {
                assert_eq!(edge.pheromone, 5 + UNIT);
                raised += 1;
            } else {
                assert_eq!(edge.pheromone, 5);
            }
        }
    }
    assert_eq!(raised, 63);
}

#[test]
fn pheromone_is_never_lowered_and_stops_at_the_largest_level() {
    let mut graph = Graph::new(u64::MAX - 10);
    let before: Vec<Vec<u64>> = (0..64i8)
        .map(|square| graph.node(&square).edges.iter().map(|edge| edge.pheromone).collect())
        .collect();
    let mut ant = Ant::new(27);
    ant.tour_with(&graph, &vec![HALF; 63]);
    assert!(!ant.moves.is_empty());
    ant.lay_pheromone(&mut graph);
    for square in 0..64usize {
        for (k, edge) in graph.node(&(square as i8)).edges.iter().enumerate() {
            assert!(edge.pheromone >= before[square][k]);
        }
    }
    let first = graph.node(&27).edge(&ant.moves[0]);
    assert_eq!(first.pheromone, u64::MAX);
}

#[test]
fn ant_that_has_not_moved_lays_nothing() {
    let mut graph = Graph::new(3);
    let ant = Ant::new(9);
    ant.lay_pheromone(&mut graph);
    for square in 0..64i8 {
        for edge in &graph.node(&square).edges {
            assert_eq!(edge.pheromone, 3);
        }
    }
}

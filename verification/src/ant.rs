//! An ant: one attempt at a tour, and the pheromone it lays afterwards.

use vstd::prelude::*;
use crate::board::{degree, lemma_knight_targets, on_board};
use crate::choice::{as_ints, chosen, weighted_choice};
use crate::graph::Graph;
use crate::pheromone::{raise, reward_for, weight};
use crate::random::random_draw;
use crate::walk::{
    covers_board, deposited, deposited_upto, draws_wf, fresh, is_complete, lemma_deposit_raises,
    lemma_open_among,
    lemma_open_weights, lemma_step_taking, lemma_step_wf, lemma_walk_length, lemma_walk_on_push,
    next_move, open_among, open_moves, open_weights, step, step_taking, walk_on, walk_wf, Walk,
};

verus! {

/// An ant on the board, with the squares it has entered and the moves it has made.
pub struct Ant {
    pub start: i8,
    pub current: i8,
    pub tabu: Vec<i8>,
    pub moves: Vec<i8>,
}

/// Squares or move indices as mathematical integers.
pub open spec fn ints(items: Seq<i8>) -> Seq<int> {
    Seq::new(items.len(), |i: int| items[i] as int)
}

/// Draws as mathematical integers.
pub open spec fn draw_ints(draws: Seq<u32>) -> Seq<int> {
    Seq::new(draws.len(), |i: int| draws[i] as int)
}

impl View for Ant {
    type V = Walk;

    open spec fn view(&self) -> Walk {
        Walk {
            start: self.start as int,
            current: self.current as int,
            tabu: ints(self.tabu@),
            moves: ints(self.moves@),
        }
    }
}

impl Ant {
    /// The ant's record is a walk by knight moves that enters no square twice.
    pub open spec fn wf(&self) -> bool {
        walk_wf(self@)
    }

    /// An ant placed on `start`.
    pub fn new(start: i8) -> (ant: Ant)
        requires
            0 <= start < 64,
        ensures
            ant@ == fresh(start as int),
            ant.wf(),
    {
        let mut tabu: Vec<i8> = Vec::with_capacity(64);
        tabu.push(start);
        let ant = Ant { start: start, current: start, tabu: tabu, moves: Vec::with_capacity(64) };
        proof {
            assert(ant@.tabu =~= seq![start as int]);
            assert(ant@.moves =~= Seq::<int>::empty());
        }
        ant
    }

    /// Whether the ant has entered `square`.
    pub fn has_entered(&self, square: i8) -> (entered: bool)
        ensures
            entered == self@.tabu.contains(square as int),
    {
        let mut i: usize = 0;
        while i < self.tabu.len()
            invariant
                0 <= i <= self.tabu.len(),
                forall|j: int| 0 <= j < i ==> self@.tabu[j] != square as int,
            decreases self.tabu.len() - i,
        {
            if self.tabu[i] == square {
                assert(self@.tabu[i as int] == square as int);
                return true;
            }
            i = i + 1;
        }
        false
    }

    /// The moves that are open to the ant, by index, and their weights.
    pub fn candidates(&self, graph: &Graph) -> (found: (Vec<i8>, Vec<u64>))
        requires
            self.wf(),
            graph.wf(),
        ensures
            ints(found.0@) == open_moves(self@),
            as_ints(found.1@) == open_weights(self@, graph@),
            found.0.len() == found.1.len(),
            found.0.len() <= 8,
    {
        let current_node = graph.node(&self.current);
        let mut indices: Vec<i8> = Vec::with_capacity(8);
        let mut weights: Vec<u64> = Vec::with_capacity(8);
        let ghost here = self.current as int;
        proof {
            assert(on_board(self@.tabu[self@.tabu.len() - 1]));
            lemma_knight_targets(here);
            graph.lemma_levels_wf();
        }
        let n: usize = current_node.edges.len();
        let mut k: usize = 0;
        while k < n
            invariant
                0 <= k <= n,
                n == degree(here),
                n <= 8,
                here == self.current,
                0 <= here < 64,
                graph.wf(),
                *current_node == graph.nodes[here],
                indices.len() == weights.len(),
                ints(indices@) == open_among(here, self@.tabu, k as int),
                forall|j: int|
                    0 <= j < weights.len() ==> (#[trigger] weights[j]) as int
                        == graph@[here][indices[j] as int],
            decreases n - k,
        {
            proof {
                graph.lemma_levels_wf();
                lemma_open_among(here, self@.tabu, k as int);
            }
            let edge = &current_node.edges[k];
            if !self.has_entered(edge.target) {
                let ghost before = ints(indices@);
                indices.push(k as i8);
                weights.push(weight(edge.pheromone));
                proof {
                    assert(ints(indices@) =~= before.push(k as int));
                }
            }
            k = k + 1;
        }
        proof {
            lemma_open_among(here, self@.tabu, n as int);
            assert(as_ints(weights@) =~= open_weights(self@, graph@));
        }
        (indices, weights)
    }

    /// The move that `draw` chooses among the open moves `indices`, which have
    /// the weights `weights`.
    fn follow(&mut self, graph: &Graph, indices: &Vec<i8>, weights: &Vec<u64>, draw: u32)
        requires
            old(self).wf(),
            graph.wf(),
            indices.len() > 0,
            ints(indices@) == open_moves(old(self)@),
            as_ints(weights@) == open_weights(old(self)@, graph@),
        ensures
            final(self).wf(),
            final(self)@ == step(old(self)@, graph@, draw as int),
    {
        proof {
            graph.lemma_levels_wf();
            lemma_open_weights(self@, graph@);
            lemma_step_wf(self@, graph@, draw as int);
            assert(on_board(self@.tabu[self@.tabu.len() - 1]));
            assert(weights.len() == as_ints(weights@).len());
            assert(indices.len() == ints(indices@).len());
        }
        let ghost before = self@;
        let pick: usize = match weighted_choice(weights, draw) {
            Some(pick) => pick,
            None => 0,
        };
        let k: i8 = indices[pick];
        proof {
            assert(ints(indices@)[pick as int] == k);
            assert(k == next_move(before, graph@, draw as int));
        }
        let next: i8 = graph.node(&self.current).edge(&k).target;
        self.current = next;
        self.tabu.push(next);
        self.moves.push(k);
        proof {
            let after = step(before, graph@, draw as int);
            assert(self@.tabu =~= after.tabu);
            assert(self@.moves =~= after.moves);
        }
    }

    /// One move, chosen by `draw` among the open moves, where there is one.
    /// Returns whether the ant has moved.
    pub fn advance(&mut self, graph: &Graph, draw: u32) -> (moved: bool)
        requires
            old(self).wf(),
            graph.wf(),
        ensures
            final(self).wf(),
            moved == (open_moves(old(self)@).len() > 0),
            moved ==> final(self)@ == step(old(self)@, graph@, draw as int),
            !moved ==> final(self)@ == old(self)@,
    {
        let (indices, weights) = self.candidates(graph);
        proof {
            assert(indices.len() == ints(indices@).len());
        }
        if indices.is_empty() {
            return false;
        }
        self.follow(graph, &indices, &weights, draw);
        true
    }

    /// A walk led by the given draws: one move for each draw, until no move is
    /// open or the draws are used up. Returns whether the tour is complete.
    pub fn tour_with(&mut self, graph: &Graph, draws: &Vec<u32>) -> (complete: bool)
        requires
            old(self).wf(),
            graph.wf(),
        ensures
            final(self).wf(),
            final(self)@ == walk_on(old(self)@, graph@, draw_ints(draws@), 0),
            final(self).moves.len() <= 63,
            complete == is_complete(final(self)@),
            complete == covers_board(final(self)@),
    {
        let mut i: usize = 0;
        while i < draws.len()
            invariant_except_break
                0 <= i <= draws.len(),
            invariant
                self.wf(),
                graph.wf(),
                walk_on(old(self)@, graph@, draw_ints(draws@), 0) == walk_on(
                    self@,
                    graph@,
                    draw_ints(draws@),
                    i as int,
                ),
            ensures
                walk_on(old(self)@, graph@, draw_ints(draws@), 0) == self@,
            decreases draws.len() - i,
        {
            let (indices, weights) = self.candidates(graph);
            proof {
                assert(indices.len() == ints(indices@).len());
            }
            if indices.is_empty() {
                break;
            }
            proof {
                assert(draw_ints(draws@)[i as int] == draws[i as int]);
            }
            self.follow(graph, &indices, &weights, draws[i]);
            i = i + 1;
        }
        proof {
            lemma_walk_length(self@);
        }
        self.moves.len() == 63
    }

    /// A walk led by random draws, until no move is open. Returns whether the
    /// tour is complete.
    pub fn tour(&mut self, graph: &Graph) -> (complete: bool)
        requires
            old(self).wf(),
            graph.wf(),
        ensures
            final(self).wf(),
            exists|draws: Seq<int>|
                draws_wf(draws) && final(self)@ == #[trigger] walk_on(
                    old(self)@,
                    graph@,
                    draws,
                    0,
                ),
            open_moves(final(self)@).len() == 0,
            final(self).moves.len() <= 63,
            complete == is_complete(final(self)@),
            complete == covers_board(final(self)@),
    {
        let ghost mut drawn: Seq<int> = Seq::empty();
        loop
            invariant
                self.wf(),
                graph.wf(),
                draws_wf(drawn),
                self@ == walk_on(old(self)@, graph@, drawn, 0),
                self@.moves.len() == old(self)@.moves.len() + drawn.len(),
            ensures
                open_moves(self@).len() == 0,
            decreases 64 - self.moves.len(),
        {
            let (indices, weights) = self.candidates(graph);
            proof {
                assert(indices.len() == ints(indices@).len());
            }
            if indices.is_empty() {
                break;
            }
            let draw: u32 = random_draw();
            proof {
                graph.lemma_levels_wf();
                lemma_step_wf(self@, graph@, draw as int);
                lemma_walk_length(step(self@, graph@, draw as int));
                lemma_walk_on_push(old(self)@, graph@, drawn, 0, draw as int);
                drawn = drawn.push(draw as int);
            }
            self.follow(graph, &indices, &weights, draw);
        }
        proof {
            lemma_walk_length(self@);
        }
        self.moves.len() == 63
    }

    /// The ant's pheromone: the level of each move that it made is raised by
    /// the move's reward, which is the deposit rate times the moves that the
    /// walk still had when the move was made, over the moves left of a
    /// complete tour.
    pub fn lay_pheromone(&self, graph: &mut Graph)
        requires
            self.wf(),
            old(graph).wf(),
        ensures
            final(graph).wf(),
            final(graph)@ == deposited(old(graph)@, self@),
            forall|s: int, k: int|
                0 <= s < 64 && 0 <= k < degree(s) ==> old(graph)@[s][k]
                    <= #[trigger] final(graph)@[s][k],
    {
        let num_moves: usize = self.moves.len();
        let mut current: i8 = self.start;
        let mut i: usize = 0;
        proof {
            lemma_walk_length(self@);
            old(graph).lemma_levels_wf();
            lemma_deposit_raises(old(graph)@, self@);
            assert(graph@ =~~= deposited_upto(old(graph)@, self@, 0));
        }
        while i < num_moves
            invariant
                0 <= i <= num_moves,
                num_moves == self.moves.len(),
                num_moves <= 63,
                self.wf(),
                old(graph).wf(),
                graph.wf(),
                current == self@.tabu[i as int],
                graph@ == deposited_upto(old(graph)@, self@, i as int),
            decreases num_moves - i,
        {
            let k: &i8 = &self.moves[i];
            let ghost before = graph@;
            let ghost nodes_before = graph.nodes@;
            let ghost here = current as int;
            proof {
                graph.lemma_levels_wf();
                old(graph).lemma_levels_wf();
                assert(on_board(self@.tabu[i as int]));
                assert(self@.moves[i as int] == *k);
                lemma_knight_targets(here);
            }
            let delta_pheromone: u64 = reward_for(num_moves, i);
            let edge = graph.node_mut(&current).edge_mut(k);
            edge.pheromone = raise(edge.pheromone, delta_pheromone);
            current = edge.target;
            proof {
                let target_after = self@.tabu[i as int + 1];
                assert(current == target_after);
                assert forall|s: int| 0 <= s < 64 implies (#[trigger] graph.nodes[s]).wf(s) by {
                    assert(nodes_before[s].wf(s));
                    if s == here {
                        assert(graph.nodes[s].targets() =~= nodes_before[s].targets());
                    }
                }
                graph.lemma_levels_wf();
                let goal = deposited_upto(old(graph)@, self@, i as int + 1);
                assert forall|s: int, j: int|
                    0 <= s < 64 && 0 <= j < degree(s) implies #[trigger] graph@[s][j]
                    == goal[s][j] by {
                    lemma_step_taking(self@, s, j, i as int);
                    lemma_step_taking(self@, s, j, i as int + 1);
                    if s == here && j == *k as int {
                        assert(step_taking(self@, s, j, i as int + 1) == i);
                        if step_taking(self@, s, j, i as int) >= 0 {
                            let earlier = step_taking(self@, s, j, i as int);
                            assert(self@.tabu[earlier] == self@.tabu[i as int]);
                        }
                        assert(before[s][j] == old(graph)@[s][j]);
                    } else {
                        assert(step_taking(self@, s, j, i as int + 1) == step_taking(
                            self@,
                            s,
                            j,
                            i as int,
                        ));
                        assert(graph.nodes[s].edges[j].pheromone
                            == nodes_before[s].edges[j].pheromone);
                        assert(before[s][j] == nodes_before[s].edges[j].pheromone);
                    }
                }
                assert(graph@ =~~= goal);
            }
            i = i + 1;
        }
    }
}

} // verus!

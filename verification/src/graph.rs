//! The graph of knight moves: one node for each square, one edge for each move,
//! and a pheromone level on each edge.

use vstd::prelude::*;
use crate::board::{
    degree, file_of, is_knight_move, jumps_before, knight_targets, lemma_knight_targets,
    lemma_scan_gap, lemma_scan_step, on_board, rank_of, square_at, targets_among,
};
use crate::pheromone::{decay, decayed, MAX_LEVEL, UNIT};

verus! {

/// A knight's move from the node that owns it to a target square.
pub struct Edge {
    pub pheromone: u64,
    pub target: i8,
}

/// A square of the board with the moves that leave it.
pub struct Node {
    pub x: i8,
    pub y: i8,
    pub edges: Vec<Edge>,
}

/// The 64 squares of the board, each with its knight moves.
pub struct Graph {
    pub nodes: Vec<Node>,
}

/// The levels of a graph whose every move has the level `level`.
pub open spec fn uniform_levels(level: int) -> Seq<Seq<int>> {
    Seq::new(64, |s: int| Seq::new(degree(s) as nat, |k: int| level))
}

/// The levels after evaporation of every one of them at `rate`.
pub open spec fn evaporated(levels: Seq<Seq<int>>, rate: int) -> Seq<Seq<int>> {
    Seq::new(
        levels.len(),
        |s: int| Seq::new(levels[s].len(), |k: int| decayed(levels[s][k], rate)),
    )
}

/// Levels of a graph: one for each move of each square, none above the largest.
pub open spec fn levels_wf(levels: Seq<Seq<int>>) -> bool {
    &&& levels.len() == 64
    &&& forall|s: int| 0 <= s < 64 ==> (#[trigger] levels[s]).len() == degree(s)
    &&& forall|s: int, k: int|
        0 <= s < 64 && 0 <= k < degree(s) ==> 0 <= #[trigger] levels[s][k] <= MAX_LEVEL
}

impl Edge {
    /// A move to `target` with the level `pheromone`.
    pub fn new(pheromone: u64, target: i8) -> (edge: Edge)
        ensures
            edge.pheromone == pheromone,
            edge.target == target,
    {
        Edge { pheromone: pheromone, target: target }
    }
}

impl Node {
    /// The targets of the node's moves, in stored order.
    pub open spec fn targets(&self) -> Seq<int> {
        Seq::new(self.edges.len() as nat, |k: int| self.edges[k].target as int)
    }

    /// The pheromone levels of the node's moves, in stored order.
    pub open spec fn levels(&self) -> Seq<int> {
        Seq::new(self.edges.len() as nat, |k: int| self.edges[k].pheromone as int)
    }

    /// The node is that of square `index`, with all of a knight's moves from there.
    pub open spec fn wf(&self, index: int) -> bool {
        &&& self.x == file_of(index)
        &&& self.y == rank_of(index)
        &&& self.targets() == knight_targets(index)
    }

    /// The node of square `index`, with no move yet.
    pub fn new(index: i8) -> (node: Node)
        requires
            0 <= index < 64,
        ensures
            node.x == file_of(index as int),
            node.y == rank_of(index as int),
            node.edges@.len() == 0,
    {
        Node { x: index % 8, y: index / 8, edges: Vec::with_capacity(8) }
    }

    /// The move with the given index.
    pub fn edge(&self, index: &i8) -> (edge: &Edge)
        requires
            0 <= *index < self.edges.len(),
        ensures
            *edge == self.edges[*index as int],
    {
        &self.edges[*index as usize]
    }

    /// The move with the given index, to change it.
    pub fn edge_mut(&mut self, index: &i8) -> (edge: &mut Edge)
        requires
            0 <= *index < old(self).edges.len(),
        ensures
            *edge == old(self).edges[*index as int],
            final(self).x == old(self).x,
            final(self).y == old(self).y,
            final(self).edges@ == old(self).edges@.update(*index as int, *final(edge)),
    {
        &mut self.edges[*index as usize]
    }
}

impl View for Graph {
    type V = Seq<Seq<int>>;

    /// The pheromone levels, by square and by move.
    open spec fn view(&self) -> Seq<Seq<int>> {
        Seq::new(self.nodes.len() as nat, |s: int| self.nodes[s].levels())
    }
}

impl Graph {
    /// The graph holds the 64 squares in order, each with its knight moves.
    pub open spec fn wf(&self) -> bool {
        &&& self.nodes.len() == 64
        &&& forall|s: int| 0 <= s < 64 ==> (#[trigger] self.nodes[s]).wf(s)
    }

    /// The graph of the knight's moves, every move with the level `initial_pheromone`.
    ///
    /// The moves of a square are found by a scan of the squares at most two
    /// columns and two rows away, by increasing column and then by increasing
    /// row, which keeps those at squared distance 5.
    pub fn new(initial_pheromone: u64) -> (graph: Graph)
        ensures
            graph.wf(),
            graph@ == uniform_levels(initial_pheromone as int),
    {
        let mut nodes: Vec<Node> = Vec::with_capacity(64);
        let mut i: i8 = 0;
        while i < 64
            invariant
                0 <= i <= 64,
                nodes.len() == i,
                forall|s: int| 0 <= s < i ==> (#[trigger] nodes[s]).wf(s),
                forall|s: int|
                    0 <= s < i ==> (#[trigger] nodes[s]).levels() == Seq::new(
                        degree(s) as nat,
                        |k: int| initial_pheromone as int,
                    ),
            decreases 64 - i,
        {
            let mut node = Node::new(i);
            let min_x: i8 = if node.x >= 2 { node.x - 2 } else { 0 };
            let max_x: i8 = if node.x <= 5 { node.x + 2 } else { 7 };
            let min_y: i8 = if node.y >= 2 { node.y - 2 } else { 0 };
            let max_y: i8 = if node.y <= 5 { node.y + 2 } else { 7 };
            proof {
                lemma_scan_gap(i as int, -3, 0, min_x - node.x, min_y - node.y);
                assert(node.targets() =~= targets_among(i as int, 0));
            }
            let mut x: i8 = min_x;
            while x < max_x + 1
                invariant
                    0 <= i < 64,
                    node.x == file_of(i as int),
                    node.y == rank_of(i as int),
                    min_x == if node.x >= 2 { node.x - 2 } else { 0 },
                    max_x == if node.x <= 5 { node.x + 2 } else { 7 },
                    min_y == if node.y >= 2 { node.y - 2 } else { 0 },
                    max_y == if node.y <= 5 { node.y + 2 } else { 7 },
                    min_x <= x <= max_x + 1,
                    node.targets() == targets_among(
                        i as int,
                        jumps_before(x - node.x, min_y - node.y),
                    ),
                    forall|k: int|
                        0 <= k < node.edges.len() ==> (#[trigger] node.edges[k]).pheromone
                            == initial_pheromone,
                decreases max_x + 1 - x,
            {
                let mut y: i8 = min_y;
                while y < max_y + 1
                    invariant
                        0 <= i < 64,
                        node.x == file_of(i as int),
                        node.y == rank_of(i as int),
                        min_x <= x <= max_x,
                        min_x == if node.x >= 2 { node.x - 2 } else { 0 },
                        max_x == if node.x <= 5 { node.x + 2 } else { 7 },
                        min_y == if node.y >= 2 { node.y - 2 } else { 0 },
                        max_y == if node.y <= 5 { node.y + 2 } else { 7 },
                        min_y <= y <= max_y + 1,
                        node.targets() == targets_among(
                            i as int,
                            jumps_before(x - node.x, y - node.y),
                        ),
                        forall|k: int|
                            0 <= k < node.edges.len() ==> (#[trigger] node.edges[k]).pheromone
                                == initial_pheromone,
                    decreases max_y + 1 - y,
                {
                    let dx: i8 = node.x - x;
                    let dy: i8 = node.y - y;
                    proof {
                        assert(0 <= dx * dx <= 4 && 0 <= dy * dy <= 4) by (nonlinear_arith)
                            requires
                                -2 <= dx <= 2,
                                -2 <= dy <= 2,
                        ;
                        assert(dx * dx == (x - node.x) * (x - node.x)) by (nonlinear_arith)
                            requires
                                dx == node.x - x,
                        ;
                        assert(dy * dy == (y - node.y) * (y - node.y)) by (nonlinear_arith)
                            requires
                                dy == node.y - y,
                        ;
                        lemma_scan_step(i as int, x - node.x, y - node.y);
                    }
                    if 5 == dx * dx + dy * dy {
                        let ghost before = node.targets();
                        let edge = Edge::new(initial_pheromone, y * 8 + x);
                        node.edges.push(edge);
                        assert(node.targets() =~= before.push(square_at(x as int, y as int)));
                    }
                    y = y + 1;
                }
                proof {
                    lemma_scan_gap(
                        i as int,
                        x - node.x,
                        max_y + 1 - node.y,
                        x + 1 - node.x,
                        min_y - node.y,
                    );
                }
                x = x + 1;
            }
            proof {
                lemma_scan_gap(i as int, max_x + 1 - node.x, min_y - node.y, 3, 0);
                assert(node.levels() =~= Seq::new(
                    degree(i as int) as nat,
                    |k: int| initial_pheromone as int,
                ));
            }
            nodes.push(node);
            i = i + 1;
        }
        let graph = Graph { nodes: nodes };
        proof {
            assert forall|s: int| 0 <= s < 64 implies #[trigger] graph@[s] == uniform_levels(
                initial_pheromone as int,
            )[s] by {
                assert(graph@[s] == graph.nodes[s].levels());
            }
            assert(graph@ =~= uniform_levels(initial_pheromone as int));
        }
        graph
    }

    /// The levels of a graph are levels of every move of every square.
    pub proof fn lemma_levels_wf(&self)
        requires
            self.wf(),
        ensures
            levels_wf(self@),
            forall|s: int, k: int|
                0 <= s < 64 && 0 <= k < degree(s) ==> #[trigger] self@[s][k]
                    == self.nodes[s].edges[k].pheromone,
            forall|s: int, k: int|
                0 <= s < 64 && 0 <= k < degree(s) ==> #[trigger] knight_targets(s)[k]
                    == self.nodes[s].edges[k].target,
            forall|s: int| 0 <= s < 64 ==> (#[trigger] self.nodes[s]).edges.len() == degree(s),
    {
        assert forall|s: int| 0 <= s < 64 implies (#[trigger] self.nodes[s]).edges.len() == degree(
            s,
        ) && self@[s].len() == degree(s) by {
            assert(self.nodes[s].wf(s));
            assert(self.nodes[s].targets().len() == self.nodes[s].edges.len());
            assert(self@[s] == self.nodes[s].levels());
        }
        assert forall|s: int, k: int|
            0 <= s < 64 && 0 <= k < degree(s) implies #[trigger] self@[s][k]
            == self.nodes[s].edges[k].pheromone && knight_targets(s)[k]
            == self.nodes[s].edges[k].target by {
            assert(self.nodes[s].wf(s));
            assert(self@[s] == self.nodes[s].levels());
            assert(self.nodes[s].targets()[k] == self.nodes[s].edges[k].target);
        }
    }

    /// Every square of the graph has between two and eight moves, and every
    /// move leads to a square of the board that passes the distance test.
    pub proof fn lemma_moves_valid(&self)
        requires
            self.wf(),
        ensures
            forall|s: int| 0 <= s < 64 ==> 2 <= (#[trigger] self.nodes[s]).edges.len() <= 8,
            forall|s: int, k: int|
                0 <= s < 64 && 0 <= k < self.nodes[s].edges.len() ==> on_board(
                    (#[trigger] self.nodes[s].edges[k]).target as int,
                ) && is_knight_move(s, self.nodes[s].edges[k].target as int),
    {
        self.lemma_levels_wf();
        assert forall|s: int| 0 <= s < 64 implies 2 <= (#[trigger] self.nodes[s]).edges.len()
            <= 8 by {
            lemma_knight_targets(s);
        }
        assert forall|s: int, k: int|
            0 <= s < 64 && 0 <= k < self.nodes[s].edges.len() implies on_board(
            (#[trigger] self.nodes[s].edges[k]).target as int,
        ) && is_knight_move(s, self.nodes[s].edges[k].target as int) by {
            lemma_knight_targets(s);
            assert(knight_targets(s)[k] == self.nodes[s].edges[k].target);
        }
    }

    /// The node of a square.
    pub fn node(&self, index: &i8) -> (node: &Node)
        requires
            0 <= *index < self.nodes.len(),
        ensures
            *node == self.nodes[*index as int],
    {
        &self.nodes[*index as usize]
    }

    /// The node of a square, to change it.
    pub fn node_mut(&mut self, index: &i8) -> (node: &mut Node)
        requires
            0 <= *index < old(self).nodes.len(),
        ensures
            *node == old(self).nodes[*index as int],
            final(self).nodes@ == old(self).nodes@.update(*index as int, *final(node)),
    {
        &mut self.nodes[*index as usize]
    }

    /// Evaporation at `rate`, a fraction below 1 in units of 2^-32: every level
    /// becomes itself times `1 - rate`, rounded down to a whole number of units.
    pub fn evaporate_pheromones(&mut self, rate: &u64)
        requires
            old(self).wf(),
            *rate < UNIT,
        ensures
            final(self).wf(),
            final(self)@ == evaporated(old(self)@, *rate as int),
    {
        let mut s: usize = 0;
        while s < 64
            invariant
                0 <= s <= 64,
                *rate < UNIT,
                old(self).wf(),
                self.nodes.len() == 64,
                forall|t: int|
                    0 <= t < 64 ==> (#[trigger] self.nodes[t]).x == old(self).nodes[t].x
                        && self.nodes[t].y == old(self).nodes[t].y && self.nodes[t].targets()
                        == old(self).nodes[t].targets(),
                forall|t: int|
                    0 <= t < s ==> (#[trigger] self.nodes[t]).levels() == evaporated(
                        old(self)@,
                        *rate as int,
                    )[t],
                forall|t: int| s <= t < 64 ==> (#[trigger] self.nodes[t]) == old(self).nodes[t],
            decreases 64 - s,
        {
            let degree: usize = self.nodes[s].edges.len();
            let mut k: usize = 0;
            while k < degree
                invariant
                    0 <= s < 64,
                    0 <= k <= degree,
                    *rate < UNIT,
                    old(self).wf(),
                    self.nodes.len() == 64,
                    degree == old(self).nodes[s as int].edges.len(),
                    self.nodes[s as int].edges.len() == degree,
                    forall|t: int|
                        0 <= t < 64 ==> (#[trigger] self.nodes[t]).x == old(self).nodes[t].x
                            && self.nodes[t].y == old(self).nodes[t].y && self.nodes[t].targets()
                            == old(self).nodes[t].targets(),
                    forall|t: int|
                        0 <= t < s ==> (#[trigger] self.nodes[t]).levels() == evaporated(
                            old(self)@,
                            *rate as int,
                        )[t],
                    forall|t: int| s < t < 64 ==> (#[trigger] self.nodes[t]) == old(self).nodes[t],
                    forall|j: int|
                        0 <= j < k ==> (#[trigger] self.nodes[s as int].edges[j]).pheromone
                            == decayed(
                            old(self).nodes[s as int].edges[j].pheromone as int,
                            *rate as int,
                        ),
                    forall|j: int|
                        k <= j < degree ==> (#[trigger] self.nodes[s as int].edges[j]).pheromone
                            == old(self).nodes[s as int].edges[j].pheromone,
                decreases degree - k,
            {
                let ghost before = self.nodes[s as int];
                let level: u64 = self.nodes[s].edges[k].pheromone;
                self.nodes[s].edges[k].pheromone = decay(level, *rate);
                proof {
                    assert(self.nodes[s as int].targets() =~= before.targets());
                }
                k = k + 1;
            }
            proof {
                assert(old(self)@[s as int] == old(self).nodes[s as int].levels());
                assert(self.nodes[s as int].levels() =~= evaporated(
                    old(self)@,
                    *rate as int,
                )[s as int]);
            }
            s = s + 1;
        }
        proof {
            assert forall|t: int| 0 <= t < 64 implies #[trigger] self@[t] == evaporated(
                old(self)@,
                *rate as int,
            )[t] by {
                assert(self@[t] == self.nodes[t].levels());
            }
            assert(self@ =~= evaporated(old(self)@, *rate as int));
        }
    }
}

} // verus!

//! The walk of an ant as mathematics: the squares entered, the moves made, the
//! moves still open, and the walk that a sequence of draws leads to.

use vstd::prelude::*;
use vstd::seq_lib::seq_to_set_is_finite;
use vstd::set_lib::{lemma_int_range, lemma_len_subset, lemma_subset_equality, set_int_range};
use crate::board::{degree, knight_targets, lemma_knight_targets, on_board};
use crate::choice::{chosen, lemma_chosen, DRAWS};
use crate::pheromone::{lemma_reward_bounds, raised, reward, weight_of, MAX_LEVEL};

verus! {

/// What an ant has done so far.
pub struct Walk {
    /// The square on which the ant was placed.
    pub start: int,
    /// The square on which the ant stands.
    pub current: int,
    /// The squares entered, in order, the first being `start`.
    pub tabu: Seq<int>,
    /// For each move made, its index among the moves of the square it left.
    pub moves: Seq<int>,
}

/// The walk of an ant that was placed on `start` and has not moved.
pub open spec fn fresh(start: int) -> Walk {
    Walk { start: start, current: start, tabu: seq![start], moves: Seq::empty() }
}

/// A walk by knight moves from `start` to `current` that enters no square twice.
pub open spec fn walk_wf(walk: Walk) -> bool {
    &&& walk.tabu.len() == walk.moves.len() + 1
    &&& walk.tabu[0] == walk.start
    &&& walk.tabu.last() == walk.current
    &&& forall|i: int| 0 <= i < walk.tabu.len() ==> on_board(#[trigger] walk.tabu[i])
    &&& walk.tabu.no_duplicates()
    &&& forall|i: int|
        0 <= i < walk.moves.len() ==> 0 <= #[trigger] walk.moves[i] < degree(walk.tabu[i])
            && knight_targets(walk.tabu[i])[walk.moves[i]] == walk.tabu[i + 1]
}

/// Whether the walk has entered every square of the board.
pub open spec fn covers_board(walk: Walk) -> bool {
    forall|s: int| on_board(s) ==> walk.tabu.contains(s)
}

/// A tour is complete when it has 63 moves.
pub open spec fn is_complete(walk: Walk) -> bool {
    walk.moves.len() == 63
}

/// Among the first `n` moves of `square`, the indices of those that lead to a
/// square not in `tabu`, in stored order.
pub open spec fn open_among(square: int, tabu: Seq<int>, n: int) -> Seq<int>
    decreases n,
{
    if n <= 0 {
        Seq::empty()
    } else if !tabu.contains(knight_targets(square)[n - 1]) {
        open_among(square, tabu, n - 1).push(n - 1)
    } else {
        open_among(square, tabu, n - 1)
    }
}

/// The indices of the moves that an ant on the walk's last square may make.
pub open spec fn open_moves(walk: Walk) -> Seq<int> {
    open_among(walk.current, walk.tabu, degree(walk.current))
}

/// The weights of the open moves, from the pheromone levels of the graph.
pub open spec fn open_weights(walk: Walk, levels: Seq<Seq<int>>) -> Seq<int> {
    Seq::new(
        open_moves(walk).len(),
        |j: int| weight_of(levels[walk.current][open_moves(walk)[j]]),
    )
}

/// The index of the move that `draw` chooses among the open moves.
pub open spec fn next_move(walk: Walk, levels: Seq<Seq<int>>, draw: int) -> int {
    open_moves(walk)[chosen(open_weights(walk, levels), draw)]
}

/// The walk after the move that `draw` chooses among the open moves.
pub open spec fn step(walk: Walk, levels: Seq<Seq<int>>, draw: int) -> Walk {
    let k = next_move(walk, levels, draw);
    let next = knight_targets(walk.current)[k];
    Walk {
        start: walk.start,
        current: next,
        tabu: walk.tabu.push(next),
        moves: walk.moves.push(k),
    }
}

/// The walk that the draws from `from` on lead to: one move for each draw,
/// until no move is open or the draws are used up.
pub open spec fn walk_on(walk: Walk, levels: Seq<Seq<int>>, draws: Seq<int>, from: int) -> Walk
    decreases draws.len() - from,
{
    if from < 0 || from >= draws.len() || open_moves(walk).len() == 0 {
        walk
    } else {
        walk_on(step(walk, levels, draws[from]), levels, draws, from + 1)
    }
}

/// Whether every draw is a number of a draw.
pub open spec fn draws_wf(draws: Seq<int>) -> bool {
    forall|i: int| 0 <= i < draws.len() ==> 0 <= #[trigger] draws[i] < DRAWS
}

/// A walk that enters no square twice has at most 63 moves, and it has 63
/// exactly if it has entered every square.
pub proof fn lemma_walk_length(walk: Walk)
    requires
        walk_wf(walk),
    ensures
        walk.moves.len() <= 63,
        walk.tabu.len() <= 64,
        is_complete(walk) <==> covers_board(walk),
{
    let entered = walk.tabu.to_set();
    let board = set_int_range(0, 64);
    lemma_int_range(0, 64);
    walk.tabu.unique_seq_to_set();
    seq_to_set_is_finite(walk.tabu);
    assert forall|s: int| entered.contains(s) implies board.contains(s) by {
        let i = choose|i: int| 0 <= i < walk.tabu.len() && walk.tabu[i] == s;
        assert(on_board(walk.tabu[i]));
    }
    assert(entered.subset_of(board));
    lemma_len_subset(entered, board);
    if is_complete(walk) {
        lemma_subset_equality(entered, board);
        assert forall|s: int| on_board(s) implies walk.tabu.contains(s) by {
            assert(board.contains(s));
            assert(entered.contains(s));
        }
    }
    if covers_board(walk) {
        assert forall|s: int| board.contains(s) implies entered.contains(s) by {
            assert(on_board(s));
        }
        assert(board.subset_of(entered));
        lemma_len_subset(board, entered);
    }
}

/// The open moves among the first `n`: each is the index of a move to a
/// square not yet entered, every such index is among them, and they stand in
/// increasing order.
pub proof fn lemma_open_among(square: int, tabu: Seq<int>, n: int)
    requires
        0 <= n,
    ensures
        open_among(square, tabu, n).len() <= n,
        forall|j: int|
            0 <= j < open_among(square, tabu, n).len() ==> 0 <= #[trigger] open_among(
                square,
                tabu,
                n,
            )[j] < n && !tabu.contains(knight_targets(square)[open_among(square, tabu, n)[j]]),
        forall|k: int|
            0 <= k < n && !tabu.contains(#[trigger] knight_targets(square)[k]) ==> open_among(
                square,
                tabu,
                n,
            ).contains(k),
        forall|i: int, j: int|
            0 <= i < j < open_among(square, tabu, n).len() ==> #[trigger] open_among(
                square,
                tabu,
                n,
            )[i] < #[trigger] open_among(square, tabu, n)[j],
    decreases n,
{
    if n > 0 {
        lemma_open_among(square, tabu, n - 1);
        let prev = open_among(square, tabu, n - 1);
        let cur = open_among(square, tabu, n);
        if !tabu.contains(knight_targets(square)[n - 1]) {
            assert(cur == prev.push(n - 1));
            assert forall|k: int|
                0 <= k < n && !tabu.contains(#[trigger] knight_targets(square)[k])
                implies cur.contains(k) by {
                if k < n - 1 {
                    let j = choose|j: int| 0 <= j < prev.len() && prev[j] == k;
                    assert(cur[j] == k);
                } else {
                    assert(cur[prev.len() as int] == k);
                }
            }
        }
    }
}

/// Levels of a graph give the open moves weights that are not negative.
pub proof fn lemma_open_weights(walk: Walk, levels: Seq<Seq<int>>)
    requires
        walk_wf(walk),
        crate::graph::levels_wf(levels),
    ensures
        open_weights(walk, levels).len() == open_moves(walk).len(),
        open_moves(walk).len() <= 8,
        forall|j: int|
            0 <= j < open_moves(walk).len() ==> 0 <= #[trigger] open_weights(walk, levels)[j]
                <= MAX_LEVEL,
{
    lemma_knight_targets(walk.current);
    lemma_open_among(walk.current, walk.tabu, degree(walk.current));
    assert(on_board(walk.tabu[walk.tabu.len() - 1]));
    assert forall|j: int| 0 <= j < open_moves(walk).len() implies 0 <= #[trigger] open_weights(
        walk,
        levels,
    )[j] <= MAX_LEVEL by {
        let k = open_moves(walk)[j];
        assert(0 <= k < degree(walk.current));
        assert(0 <= levels[walk.current][k] <= MAX_LEVEL);
    }
}

/// A move keeps the walk a walk by knight moves that enters no square twice.
pub proof fn lemma_step_wf(walk: Walk, levels: Seq<Seq<int>>, draw: int)
    requires
        walk_wf(walk),
        crate::graph::levels_wf(levels),
        open_moves(walk).len() > 0,
        0 <= draw < DRAWS,
    ensures
        walk_wf(step(walk, levels, draw)),
        0 <= next_move(walk, levels, draw) < degree(walk.current),
        !walk.tabu.contains(knight_targets(walk.current)[next_move(walk, levels, draw)]),
        step(walk, levels, draw).moves.len() == walk.moves.len() + 1,
{
    lemma_open_weights(walk, levels);
    lemma_chosen(open_weights(walk, levels), draw);
    lemma_knight_targets(walk.current);
    lemma_open_among(walk.current, walk.tabu, degree(walk.current));
    let pick = chosen(open_weights(walk, levels), draw);
    let k = next_move(walk, levels, draw);
    assert(k == open_moves(walk)[pick]);
    let next = knight_targets(walk.current)[k];
    let after = step(walk, levels, draw);
    assert(on_board(next));
    assert(!walk.tabu.contains(next));
    assert forall|i: int, j: int|
        0 <= i < after.tabu.len() && 0 <= j < after.tabu.len() && i != j implies after.tabu[i]
        != after.tabu[j] by {
        if i == walk.tabu.len() {
            assert(walk.tabu[j] != next);
        } else if j == walk.tabu.len() {
            assert(walk.tabu[i] != next);
        }
    }
    assert forall|i: int| 0 <= i < after.moves.len() implies 0 <= #[trigger] after.moves[i]
        < degree(after.tabu[i]) && knight_targets(after.tabu[i])[after.moves[i]] == after.tabu[i
        + 1] by {
        if i < walk.moves.len() {
            assert(after.moves[i] == walk.moves[i]);
            assert(after.tabu[i] == walk.tabu[i]);
            assert(after.tabu[i + 1] == walk.tabu[i + 1]);
        }
    }
}

/// The walk that draws lead to is again a walk by knight moves that enters no
/// square twice, with at most one more move for each draw.
pub proof fn lemma_walk_on_wf(walk: Walk, levels: Seq<Seq<int>>, draws: Seq<int>, from: int)
    requires
        walk_wf(walk),
        crate::graph::levels_wf(levels),
        draws_wf(draws),
        0 <= from,
    ensures
        walk_wf(walk_on(walk, levels, draws, from)),
        walk_on(walk, levels, draws, from).start == walk.start,
        walk_on(walk, levels, draws, from).moves.len() >= walk.moves.len(),
    decreases draws.len() - from,
{
    if from < draws.len() && open_moves(walk).len() > 0 {
        lemma_step_wf(walk, levels, draws[from]);
        lemma_walk_on_wf(step(walk, levels, draws[from]), levels, draws, from + 1);
    }
}

/// One more draw after draws that were all used makes one more move.
pub proof fn lemma_walk_on_push(
    walk: Walk,
    levels: Seq<Seq<int>>,
    draws: Seq<int>,
    from: int,
    draw: int,
)
    requires
        0 <= from <= draws.len(),
        walk_on(walk, levels, draws, from).moves.len() == walk.moves.len() + draws.len() - from,
        open_moves(walk_on(walk, levels, draws, from)).len() > 0,
    ensures
        walk_on(walk, levels, draws.push(draw), from) == step(
            walk_on(walk, levels, draws, from),
            levels,
            draw,
        ),
    decreases draws.len() - from,
{
    let longer = draws.push(draw);
    if from == draws.len() {
        assert(walk_on(walk, levels, draws, from) == walk);
        assert(longer[from] == draw);
        assert(walk_on(step(walk, levels, draw), levels, longer, from + 1) == step(
            walk,
            levels,
            draw,
        ));
    } else {
        assert(longer[from] == draws[from]);
        if open_moves(walk).len() == 0 {
            assert(walk_on(walk, levels, draws, from) == walk);
        } else {
            let after = step(walk, levels, draws[from]);
            lemma_walk_on_push(after, levels, draws, from + 1, draw);
        }
    }
}

/// Among the first `n` moves of the walk, the step at which the ant left
/// `square` by its move `k`; -1 where it did not.
pub open spec fn step_taking(walk: Walk, square: int, k: int, n: int) -> int
    decreases n,
{
    if n <= 0 {
        -1
    } else if walk.tabu[n - 1] == square && walk.moves[n - 1] == k {
        n - 1
    } else {
        step_taking(walk, square, k, n - 1)
    }
}

/// The levels after the deposits for the first `n` moves of the walk: each of
/// these moves has its level raised by its reward, and no other level changes.
pub open spec fn deposited_upto(levels: Seq<Seq<int>>, walk: Walk, n: int) -> Seq<Seq<int>> {
    Seq::new(
        levels.len(),
        |s: int|
            Seq::new(
                levels[s].len(),
                |k: int|
                    if step_taking(walk, s, k, n) >= 0 {
                        raised(
                            levels[s][k],
                            reward(walk.moves.len() as int, step_taking(walk, s, k, n)),
                        )
                    } else {
                        levels[s][k]
                    },
            ),
    )
}

/// The levels after the ant of this walk has laid its pheromone.
pub open spec fn deposited(levels: Seq<Seq<int>>, walk: Walk) -> Seq<Seq<int>> {
    deposited_upto(levels, walk, walk.moves.len() as int)
}

/// The step found is one of the first `n` and took that move of that square;
/// none is found exactly if no such step is among them.
pub proof fn lemma_step_taking(walk: Walk, square: int, k: int, n: int)
    requires
        0 <= n <= walk.moves.len(),
        walk.tabu.len() == walk.moves.len() + 1,
    ensures
        -1 <= step_taking(walk, square, k, n) < n,
        step_taking(walk, square, k, n) >= 0 ==> walk.tabu[step_taking(walk, square, k, n)]
            == square && walk.moves[step_taking(walk, square, k, n)] == k,
        step_taking(walk, square, k, n) == -1 ==> forall|i: int|
            0 <= i < n ==> !(#[trigger] walk.tabu[i] == square && walk.moves[i] == k),
    decreases n,
{
    if n > 0 {
        lemma_step_taking(walk, square, k, n - 1);
    }
}

/// A deposit lowers no level, and leaves levels of a graph levels of a graph.
pub proof fn lemma_deposit_raises(levels: Seq<Seq<int>>, walk: Walk)
    requires
        crate::graph::levels_wf(levels),
        walk_wf(walk),
    ensures
        crate::graph::levels_wf(deposited(levels, walk)),
        forall|s: int, k: int|
            0 <= s < 64 && 0 <= k < degree(s) ==> levels[s][k] <= #[trigger] deposited(
                levels,
                walk,
            )[s][k],
{
    let n = walk.moves.len() as int;
    let after = deposited(levels, walk);
    lemma_walk_length(walk);
    assert forall|s: int, k: int| 0 <= s < 64 && 0 <= k < degree(s) implies levels[s][k]
        <= #[trigger] after[s][k] <= MAX_LEVEL by {
        lemma_step_taking(walk, s, k, n);
        let i = step_taking(walk, s, k, n);
        if i >= 0 {
            lemma_reward_bounds(n, i);
        }
    }
    assert forall|s: int| 0 <= s < 64 implies (#[trigger] after[s]).len() == degree(s) by {}
}

} // verus!

//! Geometry of the board: squares, coordinates and the knight's jumps.

use vstd::prelude::*;

verus! {

/// Number of squares along one side of the board.
pub const SIDE: i8 = 8;

/// Number of squares of the board.
pub const SQUARES: usize = 64;

/// Number of moves of a tour that enters every square.
pub const TOUR_MOVES: usize = 63;

/// Squares are numbered row by row, from 0 to 63.
pub open spec fn on_board(square: int) -> bool {
    0 <= square < 64
}

/// Column of a square.
pub open spec fn file_of(square: int) -> int {
    square % 8
}

/// Row of a square.
pub open spec fn rank_of(square: int) -> int {
    square / 8
}

/// The square in column `x` of row `y`.
pub open spec fn square_at(x: int, y: int) -> int {
    y * 8 + x
}

/// The knight's distance test: the squared distance between the two squares is 5.
pub open spec fn is_knight_move(from: int, to: int) -> bool {
    let dx = file_of(to) - file_of(from);
    let dy = rank_of(to) - rank_of(from);
    dx * dx + dy * dy == 5
}

/// Place of a square in a scan of the board by increasing column, and by
/// increasing row within a column.
pub open spec fn scan_place(square: int) -> int {
    file_of(square) * 8 + rank_of(square)
}

/// Column offset of the `j`-th of the knight's eight jumps, which are numbered
/// by increasing column offset, then by increasing row offset.
pub open spec fn jump_dx(j: int) -> int {
    if j <= 1 {
        -2
    } else if j <= 3 {
        -1
    } else if j <= 5 {
        1
    } else {
        2
    }
}

/// Row offset of the `j`-th jump.
pub open spec fn jump_dy(j: int) -> int {
    if j == 0 || j == 6 {
        -1
    } else if j == 1 || j == 7 {
        1
    } else if j == 2 || j == 4 {
        -2
    } else {
        2
    }
}

/// Whether the `j`-th jump from `from` stays on the board.
pub open spec fn jump_lands(from: int, j: int) -> bool {
    &&& 0 <= file_of(from) + jump_dx(j) < 8
    &&& 0 <= rank_of(from) + jump_dy(j) < 8
}

/// The square that the `j`-th jump from `from` reaches.
pub open spec fn jump_target(from: int, j: int) -> int {
    square_at(file_of(from) + jump_dx(j), rank_of(from) + jump_dy(j))
}

/// Targets of the first `n` jumps from `from`, those that leave the board left out.
pub open spec fn targets_among(from: int, n: int) -> Seq<int>
    decreases n,
{
    if n <= 0 {
        Seq::empty()
    } else if jump_lands(from, n - 1) {
        targets_among(from, n - 1).push(jump_target(from, n - 1))
    } else {
        targets_among(from, n - 1)
    }
}

/// The moves of a knight on `from`, in the order in which a square keeps them.
pub open spec fn knight_targets(from: int) -> Seq<int> {
    targets_among(from, 8)
}

/// Number of moves of a knight on `from`.
pub open spec fn degree(from: int) -> int {
    knight_targets(from).len() as int
}

/// Offsets whose squares sum to 5 are those of the eight jumps.
pub proof fn lemma_distance_five(dx: int, dy: int)
    requires
        -7 <= dx <= 7,
        -7 <= dy <= 7,
    ensures
        dx * dx + dy * dy == 5 <==> exists|j: int|
            0 <= j < 8 && jump_dx(j) == dx && #[trigger] jump_dy(j) == dy,
{
    assert(dx * dx >= 0 && dy * dy >= 0) by (nonlinear_arith);
    assert(dx * dx <= 5 ==> -2 <= dx <= 2) by (nonlinear_arith);
    assert(dy * dy <= 5 ==> -2 <= dy <= 2) by (nonlinear_arith);
    assert(dx == 0 ==> dx * dx == 0);
    assert(dx == 1 || dx == -1 ==> dx * dx == 1) by (nonlinear_arith);
    assert(dx == 2 || dx == -2 ==> dx * dx == 4) by (nonlinear_arith);
    assert(dy == 0 ==> dy * dy == 0);
    assert(dy == 1 || dy == -1 ==> dy * dy == 1) by (nonlinear_arith);
    assert(dy == 2 || dy == -2 ==> dy * dy == 4) by (nonlinear_arith);
    if dx * dx + dy * dy == 5 {
        let j: int = if dx == -2 {
            if dy == -1 { 0 } else { 1 }
        } else if dx == -1 {
            if dy == -2 { 2 } else { 3 }
        } else if dx == 1 {
            if dy == -2 { 4 } else { 5 }
        } else {
            if dy == -1 { 6 } else { 7 }
        };
        assert(0 <= j < 8 && jump_dx(j) == dx && jump_dy(j) == dy);
    }
}

/// Whether `to` is reached from `from` by one of the first `n` jumps.
pub open spec fn reached_by_jump(from: int, to: int, n: int) -> bool {
    exists|j: int| 0 <= j < n && jump_lands(from, j) && #[trigger] jump_target(from, j) == to
}

/// What holds of the targets of the first `n` jumps: each is the target of a
/// jump that lands, every such target is among them, and they stand in scan
/// order.
pub proof fn lemma_targets_among(from: int, n: int)
    requires
        on_board(from),
        0 <= n <= 8,
    ensures
        targets_among(from, n).len() <= n,
        forall|k: int|
            0 <= k < targets_among(from, n).len() ==> reached_by_jump(
                from,
                #[trigger] targets_among(from, n)[k],
                n,
            ),
        forall|j: int|
            0 <= j < n && jump_lands(from, j) ==> targets_among(from, n).contains(
                #[trigger] jump_target(from, j),
            ),
        forall|a: int, b: int|
            0 <= a < b < targets_among(from, n).len() ==> scan_place(
                #[trigger] targets_among(from, n)[a],
            ) < scan_place(#[trigger] targets_among(from, n)[b]),
    decreases n,
{
    if n > 0 {
        lemma_targets_among(from, n - 1);
        let prev = targets_among(from, n - 1);
        let cur = targets_among(from, n);
        assert forall|k: int| 0 <= k < prev.len() implies reached_by_jump(
            from,
            #[trigger] prev[k],
            n,
        ) by {
            assert(reached_by_jump(from, prev[k], n - 1));
            let j = choose|j: int|
                0 <= j < n - 1 && jump_lands(from, j) && #[trigger] jump_target(from, j) == prev[k];
            assert(0 <= j < n && jump_lands(from, j) && jump_target(from, j) == prev[k]);
        }
        if jump_lands(from, n - 1) {
            let t = jump_target(from, n - 1);
            assert(cur == prev.push(t));
            assert(reached_by_jump(from, t, n));
            assert forall|j: int| 0 <= j < n && jump_lands(from, j) implies cur.contains(
                #[trigger] jump_target(from, j),
            ) by {
                if j < n - 1 {
                    let k = choose|k: int| 0 <= k < prev.len() && prev[k] == jump_target(from, j);
                    assert(cur[k] == jump_target(from, j));
                } else {
                    assert(cur[prev.len() as int] == t);
                }
            }
            assert forall|a: int, b: int| 0 <= a < b < cur.len() implies scan_place(
                #[trigger] cur[a],
            ) < scan_place(#[trigger] cur[b]) by {
                if b == prev.len() {
                    assert(reached_by_jump(from, prev[a], n - 1));
                    let j = choose|j: int|
                        0 <= j < n - 1 && jump_lands(from, j) && #[trigger] jump_target(from, j)
                            == prev[a];
                    lemma_jumps_in_scan_order(from, j, n - 1);
                }
            }
        }
    }
}

/// Scan place of a jump's target, and the order of two jumps that land.
pub proof fn lemma_jumps_in_scan_order(from: int, i: int, j: int)
    requires
        on_board(from),
        0 <= i < j < 8,
        jump_lands(from, i),
        jump_lands(from, j),
    ensures
        scan_place(jump_target(from, i)) < scan_place(jump_target(from, j)),
{
}

/// Targets of the first `n` jumps when none of the jumps from `m` on lands.
pub proof fn lemma_targets_skip(from: int, m: int, n: int)
    requires
        0 <= m <= n <= 8,
        forall|j: int| m <= j < n ==> !jump_lands(from, j),
    ensures
        targets_among(from, n) == targets_among(from, m),
    decreases n - m,
{
    if m < n {
        lemma_targets_skip(from, m, n - 1);
    }
}

/// The moves of a knight: there are between two and eight; each stays on the
/// board and passes the distance test; every square that passes it is among
/// them; they stand in scan order, so none occurs twice.
pub proof fn lemma_knight_targets(from: int)
    requires
        on_board(from),
    ensures
        2 <= degree(from) <= 8,
        forall|k: int|
            0 <= k < degree(from) ==> on_board(#[trigger] knight_targets(from)[k])
                && is_knight_move(from, knight_targets(from)[k]),
        forall|to: int|
            on_board(to) && #[trigger] is_knight_move(from, to) ==> knight_targets(from).contains(
                to,
            ),
        forall|a: int, b: int|
            0 <= a < b < degree(from) ==> scan_place(#[trigger] knight_targets(from)[a])
                < scan_place(#[trigger] knight_targets(from)[b]),
        knight_targets(from).no_duplicates(),
{
    let targets = knight_targets(from);
    lemma_targets_among(from, 8);
    assert forall|k: int| 0 <= k < targets.len() implies on_board(#[trigger] targets[k])
        && is_knight_move(from, targets[k]) by {
        assert(reached_by_jump(from, targets[k], 8));
        let j = choose|j: int|
            0 <= j < 8 && jump_lands(from, j) && #[trigger] jump_target(from, j) == targets[k];
        lemma_distance_five(jump_dx(j), jump_dy(j));
    }
    assert forall|to: int|
        on_board(to) && #[trigger] is_knight_move(from, to) implies targets.contains(to) by {
        let dx = file_of(to) - file_of(from);
        let dy = rank_of(to) - rank_of(from);
        lemma_distance_five(dx, dy);
        let j = choose|j: int| 0 <= j < 8 && jump_dx(j) == dx && #[trigger] jump_dy(j) == dy;
        assert(jump_lands(from, j));
        assert(jump_target(from, j) == to);
    }
    let x = file_of(from);
    let y = rank_of(from);
    let first: int = if x <= 3 {
        if y <= 3 { 5 } else { 4 }
    } else {
        if y <= 3 { 1 } else { 0 }
    };
    let second = first + 2;
    assert(jump_lands(from, first) && jump_lands(from, second));
    lemma_jumps_in_scan_order(from, first, second);
    assert(targets.contains(jump_target(from, first)));
    assert(targets.contains(jump_target(from, second)));
}

/// A corner of the board has two moves, and a square at least two squares
/// away from every side has all eight.
pub proof fn lemma_degree_at_corner_and_centre(from: int)
    requires
        on_board(from),
    ensures
        from == 0 || from == 7 || from == 56 || from == 63 ==> degree(from) == 2,
        2 <= file_of(from) <= 5 && 2 <= rank_of(from) <= 5 ==> degree(from) == 8,
{
    reveal_with_fuel(targets_among, 9);
}

/// Number of jumps whose offsets come before `(dx, dy)`, by column offset
/// first and row offset second.
pub open spec fn jumps_before(dx: int, dy: int) -> int {
    if !jump_precedes(0, dx, dy) {
        0
    } else if !jump_precedes(1, dx, dy) {
        1
    } else if !jump_precedes(2, dx, dy) {
        2
    } else if !jump_precedes(3, dx, dy) {
        3
    } else if !jump_precedes(4, dx, dy) {
        4
    } else if !jump_precedes(5, dx, dy) {
        5
    } else if !jump_precedes(6, dx, dy) {
        6
    } else if !jump_precedes(7, dx, dy) {
        7
    } else {
        8
    }
}

/// Whether the offsets of the `j`-th jump come before `(dx, dy)`.
pub open spec fn jump_precedes(j: int, dx: int, dy: int) -> bool {
    jump_dx(j) < dx || (jump_dx(j) == dx && jump_dy(j) < dy)
}

/// The jumps counted by `jumps_before` are the first ones.
pub proof fn lemma_jumps_before(dx: int, dy: int)
    ensures
        0 <= jumps_before(dx, dy) <= 8,
        forall|j: int|
            0 <= j < 8 ==> (j < jumps_before(dx, dy) <==> #[trigger] jump_precedes(j, dx, dy)),
{
}

/// One step of a scan of the squares round `from`: the square at offsets
/// `(dx, dy)` is the target of the next jump exactly if it passes the distance
/// test.
pub proof fn lemma_scan_step(from: int, dx: int, dy: int)
    requires
        on_board(from),
        0 <= file_of(from) + dx < 8,
        0 <= rank_of(from) + dy < 8,
    ensures
        dx * dx + dy * dy == 5 ==> targets_among(from, jumps_before(dx, dy + 1)) == targets_among(
            from,
            jumps_before(dx, dy),
        ).push(square_at(file_of(from) + dx, rank_of(from) + dy)),
        dx * dx + dy * dy != 5 ==> targets_among(from, jumps_before(dx, dy + 1)) == targets_among(
            from,
            jumps_before(dx, dy),
        ),
{
    lemma_distance_five(dx, dy);
    lemma_jumps_before(dx, dy);
    lemma_jumps_before(dx, dy + 1);
    let j = jumps_before(dx, dy);
    if dx * dx + dy * dy == 5 {
        let found = choose|j: int| 0 <= j < 8 && jump_dx(j) == dx && #[trigger] jump_dy(j) == dy;
        assert(!jump_precedes(found, dx, dy));
        assert(jump_precedes(found, dx, dy + 1));
        assert(found == j);
        assert(jumps_before(dx, dy + 1) == j + 1);
        assert(jump_lands(from, j));
    } else {
        assert(jumps_before(dx, dy + 1) == j);
    }
}

/// A stretch of the scan in which no jump lands adds no target.
pub proof fn lemma_scan_gap(from: int, dx1: int, dy1: int, dx2: int, dy2: int)
    requires
        dx1 < dx2 || (dx1 == dx2 && dy1 <= dy2),
        forall|j: int|
            0 <= j < 8 && !jump_precedes(j, dx1, dy1) && jump_precedes(j, dx2, dy2)
                ==> !#[trigger] jump_lands(from, j),
    ensures
        targets_among(from, jumps_before(dx2, dy2)) == targets_among(from, jumps_before(dx1, dy1)),
{
    lemma_jumps_before(dx1, dy1);
    lemma_jumps_before(dx2, dy2);
    let m = jumps_before(dx1, dy1);
    let n = jumps_before(dx2, dy2);
    if n < m {
        assert(jump_precedes(n, dx1, dy1));
        assert(!jump_precedes(n, dx2, dy2));
    }
    assert forall|j: int| m <= j < n implies !jump_lands(from, j) by {
        assert(!jump_precedes(j, dx1, dy1));
        assert(jump_precedes(j, dx2, dy2));
    }
    lemma_targets_skip(from, m, n);
}

} // verus!

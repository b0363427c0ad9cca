use vstd::prelude::*;

use crate::board::{adjacent, blank_at, col, int_abs, lemma_coords, lemma_side_square, row, slide, valid_board, Board, MAX_SIDE};

verus! {

/// The distance measured between a tile's target cell and its current cell.
#[derive(Clone, Copy, Debug, PartialEq, Eq)]
pub enum Heuristic {
    /// Sum of the horizontal and vertical offsets.
    Manhattan,
    /// 4 for a misplaced tile, 0 otherwise.
    OutOfPlace,
    /// Sum of the squared offsets; fast but not guaranteed to give shortest solutions.
    Euclidean,
}

/// Distance from `(tx, ty)` to `(x, y)` under heuristic `h`.
pub open spec fn dist_spec(h: Heuristic, tx: int, ty: int, x: int, y: int) -> nat {
    match h {
        Heuristic::Manhattan => (int_abs(tx - x) + int_abs(ty - y)) as nat,
        Heuristic::OutOfPlace => if tx == x && ty == y { 0 } else { 4 },
        Heuristic::Euclidean => ((tx - x) * (tx - x) + (ty - y) * (ty - y)) as nat,
    }
}

/// Both coordinates lie below `MAX_SIDE`.
pub open spec fn in_range(c: (usize, usize)) -> bool {
    c.0 < MAX_SIDE && c.1 < MAX_SIDE
}

/// Absolute difference of two unsigned integers.
pub fn abs_diff(a: usize, b: usize) -> (r: usize)
    ensures
        r == int_abs(a - b),
{
    if a > b {
        a - b
    } else {
        b - a
    }
}

/// Manhattan distance between a target and a position, both `(x, y)`.
pub fn manhattan(target: (usize, usize), pos: (usize, usize)) -> (r: usize)
    requires
        int_abs(target.0 - pos.0) + int_abs(target.1 - pos.1) <= usize::MAX,
    ensures
        r == dist_spec(Heuristic::Manhattan, target.0 as int, target.1 as int, pos.0 as int, pos.1 as int),
{
    abs_diff(target.0, pos.0) + abs_diff(target.1, pos.1)
}

/// 0 when the position is the target, 4 otherwise.
pub fn out_of_place(target: (usize, usize), pos: (usize, usize)) -> (r: usize)
    ensures
        r == dist_spec(Heuristic::OutOfPlace, target.0 as int, target.1 as int, pos.0 as int, pos.1 as int),
{
    if target.0 == pos.0 && target.1 == pos.1 {
        0
    } else {
        4
    }
}

/// Squared Euclidean distance between a target and a position.
pub fn euclidean(target: (usize, usize), pos: (usize, usize)) -> (r: usize)
    requires
        in_range(target),
        in_range(pos),
    ensures
        r == dist_spec(Heuristic::Euclidean, target.0 as int, target.1 as int, pos.0 as int, pos.1 as int),
{
    let dx = abs_diff(target.0, pos.0);
    let dy = abs_diff(target.1, pos.1);
    assert(dx * dx <= MAX_SIDE * MAX_SIDE && dy * dy <= MAX_SIDE * MAX_SIDE) by (nonlinear_arith)
        requires
            dx < MAX_SIDE,
            dy < MAX_SIDE,
    ;
    assert((target.0 - pos.0) * (target.0 - pos.0) == dx * dx) by (nonlinear_arith)
        requires
            dx == int_abs(target.0 - pos.0),
    ;
    assert((target.1 - pos.1) * (target.1 - pos.1) == dy * dy) by (nonlinear_arith)
        requires
            dy == int_abs(target.1 - pos.1),
    ;
    dx * dx + dy * dy
}

/// Distance under the chosen heuristic.
pub fn distance(h: Heuristic, target: (usize, usize), pos: (usize, usize)) -> (r: usize)
    requires
        in_range(target),
        in_range(pos),
    ensures
        r == dist_spec(h, target.0 as int, target.1 as int, pos.0 as int, pos.1 as int),
        r <= 2 * MAX_SIDE * MAX_SIDE,
{
    let r = match h {
        Heuristic::Manhattan => manhattan(target, pos),
        Heuristic::OutOfPlace => out_of_place(target, pos),
        Heuristic::Euclidean => euclidean(target, pos),
    };
    proof {
        let dx = int_abs(target.0 - pos.0);
        let dy = int_abs(target.1 - pos.1);
        assert(dx * dx <= MAX_SIDE * MAX_SIDE && dy * dy <= MAX_SIDE * MAX_SIDE) by (nonlinear_arith)
            requires
                0 <= dx < MAX_SIDE,
                0 <= dy < MAX_SIDE,
        ;
        assert((target.0 - pos.0) * (target.0 - pos.0) == dx * dx) by (nonlinear_arith)
            requires
                dx == int_abs(target.0 - pos.0),
        ;
        assert((target.1 - pos.1) * (target.1 - pos.1) == dy * dy) by (nonlinear_arith)
            requires
                dy == int_abs(target.1 - pos.1),
        ;
    }
    r
}

/// A target layout for side `n`: one in-grid coordinate per tile value.
pub open spec fn layout_fits(n: nat, goal: Seq<(usize, usize)>) -> bool {
    &&& goal.len() == n * n
    &&& forall|v: int| 0 <= v < goal.len() ==> (#[trigger] goal[v]).0 < n && goal[v].1 < n
}

/// What the tile `v` at flat position `p` adds to the estimate; the blank adds nothing.
pub open spec fn cell_cost(h: Heuristic, goal: Seq<(usize, usize)>, n: nat, p: int, v: usize) -> nat {
    if v == 0 {
        0
    } else {
        dist_spec(h, goal[v as int].0 as int, goal[v as int].1 as int, col(n, p), row(n, p))
    }
}

/// Sum of the cell costs of the first `k` positions.
pub open spec fn estimate_upto(
    h: Heuristic,
    goal: Seq<(usize, usize)>,
    n: nat,
    cells: Seq<usize>,
    k: int,
) -> nat
    decreases k,
{
    if k <= 0 {
        0
    } else {
        estimate_upto(h, goal, n, cells, k - 1) + cell_cost(h, goal, n, k - 1, cells[k - 1])
    }
}

/// Heuristic estimate of a grid: the sum over its tiles, blank excluded.
pub open spec fn estimate(h: Heuristic, goal: Seq<(usize, usize)>, n: nat, cells: Seq<usize>) -> nat {
    estimate_upto(h, goal, n, cells, cells.len() as int)
}

/// Heuristic estimate of the board against the target layout.
pub fn compute_distance(board: &Board, goal: &Vec<(usize, usize)>, h: Heuristic) -> (r: u64)
    requires
        board.wf(),
        layout_fits(board.spec_side(), goal@),
    ensures
        r == estimate(h, goal@, board.spec_side(), board@),
{
    compute_cells_distance(board.side(), board.cells(), goal, h)
}

/// Heuristic estimate of row-major cells of side `n` against the target layout.
pub fn compute_cells_distance(n: usize, cells: &Vec<usize>, goal: &Vec<(usize, usize)>, h: Heuristic) -> (r: u64)
    requires
        valid_board(n as nat, cells@),
        layout_fits(n as nat, goal@),
    ensures
        r == estimate(h, goal@, n as nat, cells@),
{
    proof {
        lemma_side_square(n as nat);
    }
    let mut dist: u64 = 0;
    let mut p: usize = 0;
    while p < cells.len()
        invariant
            valid_board(n as nat, cells@),
            layout_fits(n as nat, goal@),
            cells@.len() <= 0x4000_0000,
            0 <= p <= cells@.len(),
            dist == estimate_upto(h, goal@, n as nat, cells@, p as int),
            dist <= p * (2 * MAX_SIDE * MAX_SIDE),
        decreases cells.len() - p,
    {
        let v = cells[p];
        proof {
            lemma_coords(n as nat, p as int);
        }
        let c: usize = if v == 0 {
            0
        } else {
            distance(h, goal[v], (p % n, p / n))
        };
        assert(c <= 2 * MAX_SIDE * MAX_SIDE);
        assert(dist + c <= (p + 1) * (2 * MAX_SIDE * MAX_SIDE)) by (nonlinear_arith)
            requires
                dist <= p * (2 * MAX_SIDE * MAX_SIDE),
                c <= 2 * MAX_SIDE * MAX_SIDE,
        ;
        assert((p + 1) * (2 * MAX_SIDE * MAX_SIDE) <= 0x4000_0000 * (2 * MAX_SIDE * MAX_SIDE)) by (nonlinear_arith)
            requires
                p + 1 <= 0x4000_0000,
        ;
        dist = dist + c as u64;
        p = p + 1;
    }
    dist
}

/// Changing the value at position `i` changes a partial estimate by the
/// difference of that position's costs, once `i` is counted.
pub proof fn lemma_estimate_update(
    h: Heuristic,
    goal: Seq<(usize, usize)>,
    n: nat,
    cells: Seq<usize>,
    i: int,
    v: usize,
    k: int,
)
    requires
        0 <= i < cells.len(),
        0 <= k <= cells.len(),
    ensures
        estimate_upto(h, goal, n, cells.update(i, v), k) == estimate_upto(h, goal, n, cells, k) + if i < k {
            cell_cost(h, goal, n, i, v) - cell_cost(h, goal, n, i, cells[i])
        } else {
            0
        },
    decreases k,
{
    if k > 0 {
        lemma_estimate_update(h, goal, n, cells, i, v, k - 1);
    }
}

/// Under the Manhattan heuristic one move of the blank changes the moved tile's
/// distance by exactly one, and the estimate of the whole grid by exactly one.
pub proof fn lemma_manhattan_move(n: nat, goal: Seq<(usize, usize)>, cells: Seq<usize>, p: int, q: int)
    requires
        valid_board(n, cells),
        layout_fits(n, goal),
        blank_at(cells, p),
        adjacent(n, p, q),
    ensures
        int_abs(cell_cost(Heuristic::Manhattan, goal, n, p, cells[q]) - cell_cost(
            Heuristic::Manhattan,
            goal,
            n,
            q,
            cells[q],
        )) == 1,
        int_abs(estimate(Heuristic::Manhattan, goal, n, slide(cells, p, q)) - estimate(
            Heuristic::Manhattan,
            goal,
            n,
            cells,
        )) == 1,
{
    let m = Heuristic::Manhattan;
    let t = cells[q];
    assert(p != q);
    assert(t != 0) by {
        assert(cells[p] != cells[q]);
    }
    let c1 = cells.update(p, t);
    let len = cells.len() as int;
    lemma_estimate_update(m, goal, n, cells, p, t, len);
    lemma_estimate_update(m, goal, n, c1, q, 0, len);
    assert(c1[q] == t);
}

/// A tile that moves to an orthogonally adjacent cell changes its Manhattan
/// distance to any target by exactly one.
pub proof fn lemma_manhattan_tile_step(tx: int, ty: int, px: int, py: int, qx: int, qy: int)
    requires
        int_abs(px - qx) + int_abs(py - qy) == 1,
    ensures
        int_abs(dist_spec(Heuristic::Manhattan, tx, ty, qx, qy) - dist_spec(Heuristic::Manhattan, tx, ty, px, py)) == 1,
{
}

} // verus!

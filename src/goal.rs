use vstd::prelude::*;

use crate::board::{col, lemma_coords, lemma_side_square, row, valid_board, Board, MAX_SIDE};
use crate::heuristic::{cell_cost, dist_spec, estimate, estimate_upto, Heuristic};
use crate::heuristic::layout_fits;

verus! {

/// Home of the blank: the center, or for even sides the cell left of the exact center.
pub open spec fn center(n: nat) -> (int, int) {
    (if n % 2 == 0 { n / 2 - 1 } else { (n / 2) as int }, (n / 2) as int)
}

/// Offset `o` along the border of an `s`×`s` square, walked clockwise from its
/// top-left corner: rightward, downward, leftward, upward.
pub open spec fn ring_cell(s: nat, o: int) -> (int, int) {
    let l = s - 1;
    if o < l {
        (o, 0)
    } else if o < 2 * l {
        (l, o - l)
    } else if o < 3 * l {
        (3 * l - o, l)
    } else {
        (0, 4 * l - o)
    }
}

/// Target cell of tile `v` on an `n`×`n` board: tile 0 at the center, then tiles
/// 1, 2, ... along the outer ring clockwise, then along each inner ring in turn.
pub open spec fn spiral_coord(n: nat, v: int) -> (int, int)
    decreases n,
{
    if v == 0 {
        center(n)
    } else if n < 2 {
        (0, 0)
    } else if v - 1 < 4 * (n - 1) {
        ring_cell(n, v - 1)
    } else {
        let c = spiral_coord((n - 2) as nat, v - 4 * (n - 1));
        (c.0 + 1, c.1 + 1)
    }
}

/// Offset of a border cell of an `s`×`s` square along the clockwise walk.
pub open spec fn border_offset(s: nat, x: int, y: int) -> int {
    let l = s - 1;
    if y == 0 && x < l {
        x
    } else if x == l && y < l {
        l + y
    } else if y == l && x > 0 {
        3 * l - x
    } else {
        4 * l - y
    }
}

/// The tile whose target is cell `(x, y)`: the inverse of `spiral_coord`.
pub open spec fn spiral_index(n: nat, x: int, y: int) -> int
    decreases n,
{
    if x == center(n).0 && y == center(n).1 {
        0
    } else if n < 2 {
        0
    } else if x == 0 || y == 0 || x == n - 1 || y == n - 1 {
        1 + border_offset(n, x, y)
    } else {
        4 * (n - 1) + spiral_index((n - 2) as nat, x - 1, y - 1)
    }
}

/// The target layout: for each tile value, its target `(x, y)`.
pub open spec fn spiral_layout(n: nat) -> Seq<(usize, usize)> {
    Seq::new(n * n, |v: int| (spiral_coord(n, v).0 as usize, spiral_coord(n, v).1 as usize))
}

/// The solved grid, row by row: each cell holds the tile that belongs there.
pub open spec fn goal_cells(n: nat) -> Seq<usize> {
    Seq::new(n * n, |p: int| spiral_index(n, col(n, p), row(n, p)) as usize)
}

proof fn lemma_ring_square(n: nat)
    requires
        n >= 2,
    ensures
        (n - 2) * (n - 2) == n * n - 4 * (n - 1),
        n >= 3 ==> 1 + 4 * (n - 1) <= n * n,
{
    assert((n - 2) * (n - 2) == n * n - 4 * (n - 1)) by (nonlinear_arith)
        requires
            n >= 2,
    ;
    assert(n >= 3 ==> 1 + 4 * (n - 1) <= n * n) by (nonlinear_arith)
        requires
            n >= 2,
    ;
}

/// Every tile's target lies on the board, and `spiral_index` finds the tile again.
pub proof fn lemma_coord_then_index(n: nat, v: int)
    requires
        n >= 1,
        0 <= v < n * n,
    ensures
        0 <= spiral_coord(n, v).0 < n,
        0 <= spiral_coord(n, v).1 < n,
        spiral_index(n, spiral_coord(n, v).0, spiral_coord(n, v).1) == v,
    decreases n,
{
    if v == 0 {
    } else if n < 2 {
        assert(n * n == 1) by (nonlinear_arith)
            requires
                n == 1,
        ;
    } else {
        lemma_ring_square(n);
        if v - 1 < 4 * (n - 1) {
            if n == 2 {
                assert(n * n == 4) by (nonlinear_arith)
                    requires
                        n == 2,
                ;
            }
        } else {
            if n == 2 {
                assert(n * n == 4) by (nonlinear_arith)
                    requires
                        n == 2,
                ;
            }
            let m = (n - 2) as nat;
            let w = v - 4 * (n - 1);
            lemma_coord_then_index(m, w);
        }
    }
}

/// Every cell is the target of the tile `spiral_index` names.
pub proof fn lemma_index_then_coord(n: nat, x: int, y: int)
    requires
        0 <= x < n,
        0 <= y < n,
    ensures
        0 <= spiral_index(n, x, y) < n * n,
        spiral_coord(n, spiral_index(n, x, y)) == (x, y),
    decreases n,
{
    assert(n * n >= 1) by (nonlinear_arith)
        requires
            n >= 1,
    ;
    if x == center(n).0 && y == center(n).1 {
    } else if n < 2 {
    } else {
        lemma_ring_square(n);
        if n == 2 {
            assert(n * n == 4) by (nonlinear_arith)
                requires
                    n == 2,
            ;
        }
        if x == 0 || y == 0 || x == n - 1 || y == n - 1 {
        } else {
            lemma_index_then_coord((n - 2) as nat, x - 1, y - 1);
        }
    }
}

/// The target layout is a bijection from tile values onto the cells of the board,
/// and the blank's target is the center cell.
pub proof fn lemma_spiral_bijection(n: nat)
    requires
        1 <= n <= usize::MAX,
    ensures
        spiral_layout(n).len() == n * n,
        spiral_layout(n)[0] == ((center(n).0) as usize, (center(n).1) as usize),
        forall|v: int|
            0 <= v < n * n ==> (#[trigger] spiral_layout(n)[v]).0 < n && spiral_layout(n)[v].1 < n,
        forall|v: int, w: int|
            0 <= v < n * n && 0 <= w < n * n && #[trigger] spiral_layout(n)[v]
                == #[trigger] spiral_layout(n)[w] ==> v == w,
        forall|x: int, y: int|
            0 <= x < n && 0 <= y < n ==> 0 <= #[trigger] spiral_index(n, x, y) < n * n
                && spiral_layout(n)[spiral_index(n, x, y)] == (x as usize, y as usize),
{
    let l = spiral_layout(n);
    assert(n * n >= 1) by (nonlinear_arith)
        requires
            n >= 1,
    ;
    assert forall|v: int| 0 <= v < n * n implies (#[trigger] l[v]).0 < n && l[v].1 < n
        && l[v].0 == spiral_coord(n, v).0 && l[v].1 == spiral_coord(n, v).1 by {
        lemma_coord_then_index(n, v);
    }
    assert forall|v: int, w: int|
        0 <= v < n * n && 0 <= w < n * n && #[trigger] l[v] == #[trigger] l[w] implies v == w by {
        lemma_coord_then_index(n, v);
        lemma_coord_then_index(n, w);
    }
    assert forall|x: int, y: int| 0 <= x < n && 0 <= y < n implies 0 <= #[trigger] spiral_index(
        n,
        x,
        y,
    ) < n * n && l[spiral_index(n, x, y)] == (x as usize, y as usize) by {
        lemma_index_then_coord(n, x, y);
    }
}

/// Target `(x, y)` of tile `v`, found by peeling rings until `v` lies on one.
pub fn spiral_cell(n: usize, v: usize) -> (r: (usize, usize))
    requires
        1 <= n <= MAX_SIDE,
        v < n * n,
    ensures
        r.0 == spiral_coord(n as nat, v as int).0,
        r.1 == spiral_coord(n as nat, v as int).1,
{
    proof {
        lemma_coord_then_index(n as nat, v as int);
    }
    let mut s: usize = n;
    let mut w: usize = v;
    let mut off: usize = 0;
    while w != 0
        invariant
            1 <= s <= n <= MAX_SIDE,
            s + 2 * off == n,
            w < s * s,
            spiral_coord(n as nat, v as int) == ((spiral_coord(s as nat, w as int).0 + off), (
            spiral_coord(s as nat, w as int).1 + off)),
        decreases s,
    {
        if s < 2 {
            assert(s * s == 1) by (nonlinear_arith)
                requires
                    s == 1,
            ;
            assert(false);
            return (0, 0);
        }
        proof {
            lemma_ring_square(s as nat);
        }
        let l = s - 1;
        let o = w - 1;
        if o < 4 * l {
            let c: (usize, usize) = if o < l {
                (o, 0)
            } else if o < 2 * l {
                (l, o - l)
            } else if o < 3 * l {
                (3 * l - o, l)
            } else {
                (0, 4 * l - o)
            };
            return (c.0 + off, c.1 + off);
        }
        if s == 2 {
            assert(s * s == 4) by (nonlinear_arith)
                requires
                    s == 2,
            ;
        }
        w = w - 4 * l;
        s = s - 2;
        off = off + 1;
    }
    let c0: usize = if s % 2 == 0 { s / 2 - 1 } else { s / 2 };
    (c0 + off, s / 2 + off)
}

/// Target layout of an `n`×`n` board: entry `v` is the target `(x, y)` of tile `v`.
pub fn build_spiral(n: usize) -> (r: Vec<(usize, usize)>)
    requires
        1 <= n <= MAX_SIDE,
    ensures
        r@ == spiral_layout(n as nat),
        layout_fits(n as nat, r@),
{
    proof {
        lemma_side_square(n as nat);
        lemma_spiral_bijection(n as nat);
    }
    let total = n * n;
    let mut ret: Vec<(usize, usize)> = Vec::with_capacity(total);
    let mut v: usize = 0;
    while v < total
        invariant
            1 <= n <= MAX_SIDE,
            total == n * n,
            v <= total,
            ret@.len() == v,
            forall|w: int| 0 <= w < v ==> ret@[w] == spiral_layout(n as nat)[w],
        decreases total - v,
    {
        let c = spiral_cell(n, v);
        ret.push(c);
        v = v + 1;
    }
    assert(ret@ =~= spiral_layout(n as nat));
    ret
}

/// The tile whose target is `(x, y)`, found by peeling rings until the cell lies on one.
pub fn spiral_tile(n: usize, x: usize, y: usize) -> (r: usize)
    requires
        1 <= n <= MAX_SIDE,
        x < n,
        y < n,
    ensures
        r == spiral_index(n as nat, x as int, y as int),
{
    proof {
        lemma_index_then_coord(n as nat, x as int, y as int);
        lemma_side_square(n as nat);
    }
    let mut s: usize = n;
    let mut a: usize = x;
    let mut b: usize = y;
    let mut acc: usize = 0;
    loop
        invariant
            1 <= s <= n <= MAX_SIDE,
            a < s,
            b < s,
            n * n <= 0x4000_0000,
            spiral_index(n as nat, x as int, y as int) < n * n,
            spiral_index(n as nat, x as int, y as int) == acc + spiral_index(s as nat, a as int, b as int),
            acc + s * s <= n * n,
        decreases s,
    {
        let cx: usize = if s % 2 == 0 { s / 2 - 1 } else { s / 2 };
        if a == cx && b == s / 2 {
            return acc;
        }
        if s < 2 {
            return acc;
        }
        proof {
            lemma_ring_square(s as nat);
        }
        let l = s - 1;
        if a == 0 || b == 0 || a == l || b == l {
            let o: usize = if b == 0 && a < l {
                a
            } else if a == l && b < l {
                l + b
            } else if b == l && a > 0 {
                3 * l - a
            } else {
                4 * l - b
            };
            return acc + 1 + o;
        }
        acc = acc + 4 * l;
        s = s - 2;
        a = a - 1;
        b = b - 1;
    }
}

/// The solved board of side `n`.
pub fn goal_board(n: usize) -> (r: Board)
    requires
        1 <= n <= MAX_SIDE,
    ensures
        r.wf(),
        r.spec_side() == n,
        r@ == goal_cells(n as nat),
{
    proof {
        lemma_side_square(n as nat);
    }
    let total = n * n;
    let mut cells: Vec<usize> = Vec::with_capacity(total);
    let mut p: usize = 0;
    while p < total
        invariant
            1 <= n <= MAX_SIDE,
            total == n * n,
            p <= total,
            cells@.len() == p,
            forall|q: int| 0 <= q < p ==> cells@[q] == goal_cells(n as nat)[q],
        decreases total - p,
    {
        proof {
            lemma_coords(n as nat, p as int);
        }
        let t = spiral_tile(n, p % n, p / n);
        cells.push(t);
        p = p + 1;
    }
    assert(cells@ =~= goal_cells(n as nat));
    proof {
        lemma_goal_cells_valid(n as nat);
    }
    Board::from_valid(n, cells)
}

/// The solved grid holds every tile exactly once.
pub proof fn lemma_goal_cells_valid(n: nat)
    requires
        1 <= n <= MAX_SIDE,
    ensures
        valid_board(n, goal_cells(n)),
{
    let g = goal_cells(n);
    lemma_side_square(n);
    assert forall|p: int| 0 <= p < g.len() implies (#[trigger] g[p]) < n * n
        && g[p] == spiral_index(n, col(n, p), row(n, p)) by {
        lemma_coords(n, p);
        lemma_index_then_coord(n, col(n, p), row(n, p));
    }
    assert forall|p: int, q: int| 0 <= p < q < g.len() implies #[trigger] g[p] != #[trigger] g[q] by {
        lemma_coords(n, p);
        lemma_coords(n, q);
        lemma_index_then_coord(n, col(n, p), row(n, p));
        lemma_index_then_coord(n, col(n, q), row(n, q));
    }
}

/// Every heuristic estimates the solved grid at zero.
pub proof fn lemma_goal_estimate_zero(h: Heuristic, n: nat)
    requires
        1 <= n <= MAX_SIDE,
    ensures
        estimate(h, spiral_layout(n), n, goal_cells(n)) == 0,
{
    let g = goal_cells(n);
    let l = spiral_layout(n);
    lemma_side_square(n);
    assert forall|p: int| 0 <= p < g.len() implies #[trigger] cell_cost(h, l, n, p, g[p]) == 0 by {
        lemma_coords(n, p);
        let v = spiral_index(n, col(n, p), row(n, p));
        lemma_index_then_coord(n, col(n, p), row(n, p));
        assert(g[p] as int == v);
        assert(l[v].0 as int == col(n, p) && l[v].1 as int == row(n, p));
        if v != 0 {
            let c = col(n, p);
            let r = row(n, p);
            assert(dist_spec(h, c, r, c, r) == 0) by (nonlinear_arith);
        }
    }
    lemma_upto_zero(h, l, n, g, g.len() as int);
}

proof fn lemma_upto_zero(h: Heuristic, l: Seq<(usize, usize)>, n: nat, g: Seq<usize>, k: int)
    requires
        0 <= k <= g.len(),
        forall|p: int| 0 <= p < g.len() ==> #[trigger] cell_cost(h, l, n, p, g[p]) == 0,
    ensures
        estimate_upto(h, l, n, g, k) == 0,
    decreases k,
{
    if k > 0 {
        lemma_upto_zero(h, l, n, g, k - 1);
    }
}

proof fn lemma_upto_zero_each(h: Heuristic, l: Seq<(usize, usize)>, n: nat, g: Seq<usize>, k: int)
    requires
        0 <= k <= g.len(),
        estimate_upto(h, l, n, g, k) == 0,
    ensures
        forall|p: int| 0 <= p < k ==> #[trigger] cell_cost(h, l, n, p, g[p]) == 0,
    decreases k,
{
    if k > 0 {
        lemma_upto_zero_each(h, l, n, g, k - 1);
    }
}

/// Every heuristic estimates a valid grid at zero only when it is the solved grid.
pub proof fn lemma_zero_estimate_is_goal(h: Heuristic, n: nat, cells: Seq<usize>)
    requires
        valid_board(n, cells),
        estimate(h, spiral_layout(n), n, cells) == 0,
    ensures
        cells == goal_cells(n),
{
    let l = spiral_layout(n);
    let g = goal_cells(n);
    lemma_upto_zero_each(h, l, n, cells, cells.len() as int);
    lemma_goal_cells_valid(n);
    lemma_side_square(n);
    // Each tile stands where the solved grid has it.
    assert forall|p: int| 0 <= p < cells.len() && cells[p] != 0 implies #[trigger] g[p] == cells[p] by {
        let v = cells[p];
        lemma_coords(n, p);
        lemma_coord_then_index(n, v as int);
        let c = col(n, p);
        let r = row(n, p);
        assert(cell_cost(h, l, n, p, v) == 0);
        let dx = spiral_coord(n, v as int).0 - c;
        let dy = spiral_coord(n, v as int).1 - r;
        assert(l[v as int].0 as int == spiral_coord(n, v as int).0);
        assert(l[v as int].1 as int == spiral_coord(n, v as int).1);
        assert(dx == 0 && dy == 0) by {
            if h == Heuristic::Euclidean {
                assert(dx * dx >= 0 && dy * dy >= 0) by (nonlinear_arith);
                assert(dx * dx + dy * dy == 0);
                assert(dx == 0 && dy == 0) by (nonlinear_arith)
                    requires
                        dx * dx + dy * dy == 0,
                ;
            }
        }
        lemma_index_then_coord(n, c, r);
    }
    // The blank stands where the solved grid has its one remaining value, 0.
    assert forall|p: int| 0 <= p < cells.len() && cells[p] == 0 implies #[trigger] g[p] == 0 by {
        if g[p] != 0 {
            let w = g[p];
            lemma_blank_free(n, cells, g, w);
            let j = choose|j: int| 0 <= j < cells.len() && cells[j] == w;
            assert(g[j] == w);
            if j < p {
                assert(g[j] != g[p]);
            } else if p < j {
                assert(g[p] != g[j]);
            }
        }
    }
    assert(cells =~= g);
}

/// A value below `n*n` stands somewhere in a valid grid.
proof fn lemma_blank_free(n: nat, cells: Seq<usize>, g: Seq<usize>, w: usize)
    requires
        valid_board(n, cells),
        w < n * n,
    ensures
        exists|j: int| 0 <= j < cells.len() && cells[j] == w,
{
    lemma_side_square(n);
    let s = cells.to_set();
    cells.unique_seq_to_set();
    let range = Set::new(|v: usize| v < n * n);
    assert(s.subset_of(range));
    lemma_range_from_zero_len(n * n);
    if !s.contains(w) {
        vstd::set_lib::lemma_len_subset(s, range.remove(w));
    }
}

/// `{v : v < m}` has `m` elements.
proof fn lemma_range_from_zero_len(m: nat)
    requires
        m <= usize::MAX,
    ensures
        Set::new(|v: usize| v < m).finite(),
        Set::new(|v: usize| v < m).len() == m,
    decreases m,
{
    let s = Set::new(|v: usize| v < m);
    if m == 0 {
        assert(s =~= Set::empty());
    } else {
        lemma_range_from_zero_len((m - 1) as nat);
        let t = Set::new(|v: usize| v < (m - 1) as nat);
        assert(s =~= t.insert((m - 1) as usize));
    }
}

} // verus!

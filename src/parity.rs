use vstd::prelude::*;

use crate::board::{
    adjacent, blank_at, col, int_abs, is_move, lemma_coords, lemma_flat, lemma_side_square, lemma_slide_valid, row,
    slide, valid_board, Board, MAX_SIDE,
};
use crate::goal::{
    center, goal_cells, lemma_coord_then_index, lemma_index_then_coord, lemma_spiral_bijection, spiral_index,
    spiral_layout,
};
use crate::heuristic::layout_fits;

verus! {

/// Flat position of the target cell of tile `v`.
pub open spec fn home(n: nat, goal: Seq<(usize, usize)>, v: usize) -> int {
    goal[v as int].1 * n + goal[v as int].0
}

/// For each position, the flat target position of the tile standing there.
pub open spec fn homes(n: nat, goal: Seq<(usize, usize)>, cells: Seq<usize>) -> Seq<int> {
    Seq::new(cells.len(), |p: int| home(n, goal, cells[p]))
}

/// Number of elements of `t` below `x`.
pub open spec fn count_below(x: int, t: Seq<int>) -> nat
    decreases t.len(),
{
    if t.len() == 0 {
        0
    } else {
        (if x > t[0] { 1nat } else { 0nat }) + count_below(x, t.drop_first())
    }
}

/// Number of inversions of `s`: pairs of positions whose values are out of order.
pub open spec fn inversions(s: Seq<int>) -> nat
    decreases s.len(),
{
    if s.len() == 0 {
        0
    } else {
        count_below(s[0], s.drop_first()) + inversions(s.drop_first())
    }
}

proof fn lemma_count_below_push(x: int, t: Seq<int>, y: int)
    ensures
        count_below(x, t.push(y)) == count_below(x, t) + if x > y { 1nat } else { 0nat },
    decreases t.len(),
{
    if t.len() > 0 {
        assert(t.push(y).drop_first() =~= t.drop_first().push(y));
        assert(t.push(y)[0] == t[0]);
        lemma_count_below_push(x, t.drop_first(), y);
    } else {
        assert(t.push(y).drop_first() =~= Seq::<int>::empty());
        assert(t.push(y)[0] == y);
        assert(count_below(x, t.push(y).drop_first()) == 0);
    }
}

/// The necessary condition for solvability: the parity of the permutation that
/// takes each tile (blank included) to its target equals the parity of the
/// blank's distance to its own target. Every move changes both by one.
pub open spec fn parity_matches(n: nat, goal: Seq<(usize, usize)>, cells: Seq<usize>, blank: int) -> bool {
    inversions(homes(n, goal, cells)) % 2 == (int_abs(col(n, blank) - goal[0].0) + int_abs(
        row(n, blank) - goal[0].1,
    )) % 2
}

/// Whether the board passes the parity test against the target layout.
pub fn parity_allows(board: &Board, goal: &Vec<(usize, usize)>, blank: usize) -> (r: bool)
    requires
        board.wf(),
        layout_fits(board.spec_side(), goal@),
        blank < board@.len(),
    ensures
        r == parity_matches(board.spec_side(), goal@, board@, blank as int),
{
    let n = board.side();
    let cells = board.cells();
    proof {
        lemma_side_square(n as nat);
    }
    let ghost hs = homes(n as nat, goal@, cells@);
    let mut t: Vec<usize> = Vec::with_capacity(cells.len());
    let mut p: usize = 0;
    while p < cells.len()
        invariant
            valid_board(n as nat, cells@),
            layout_fits(n as nat, goal@),
            hs == homes(n as nat, goal@, cells@),
            cells@.len() <= 0x4000_0000,
            p <= cells@.len(),
            t@.len() == p,
            forall|k: int| 0 <= k < p ==> t@[k] as int == hs[k],
        decreases cells.len() - p,
    {
        let v = cells[p];
        let c = goal[v];
        proof {
            lemma_flat(n as nat, c.0 as int, c.1 as int);
        }
        t.push(c.1 * n + c.0);
        p = p + 1;
    }
    let len = t.len();
    let mut count: u64 = 0;
    let mut i: usize = len;
    assert(hs.subrange(len as int, len as int) =~= Seq::<int>::empty());
    while i > 0
        invariant
            len == t@.len() == hs.len(),
            len <= 0x4000_0000,
            i <= len,
            forall|k: int| 0 <= k < len ==> t@[k] as int == hs[k],
            count == inversions(hs.subrange(i as int, len as int)),
            count <= (len - i) * len,
        decreases i,
    {
        i = i - 1;
        let mut below: u64 = 0;
        let mut j: usize = i + 1;
        assert(hs.subrange(i + 1, j as int) =~= Seq::<int>::empty());
        while j < len
            invariant
                len == t@.len() == hs.len(),
                len <= 0x4000_0000,
                i < j <= len,
                forall|k: int| 0 <= k < len ==> t@[k] as int == hs[k],
                below == count_below(hs[i as int], hs.subrange(i + 1, j as int)),
                below <= j,
            decreases len - j,
        {
            proof {
                lemma_count_below_push(hs[i as int], hs.subrange(i + 1, j as int), hs[j as int]);
                assert(hs.subrange(i + 1, j + 1) =~= hs.subrange(i + 1, j as int).push(hs[j as int]));
            }
            if t[i] > t[j] {
                below = below + 1;
            }
            j = j + 1;
        }
        assert(hs.subrange(i as int, len as int).drop_first() =~= hs.subrange(i + 1, len as int));
        assert(count + below <= (len - i) * len) by (nonlinear_arith)
            requires
                count <= (len - (i + 1)) * len,
                below <= len,
        ;
        assert((len - i) * len <= 0x4000_0000 * 0x4000_0000) by (nonlinear_arith)
            requires
                len <= 0x4000_0000,
                i <= len,
        ;
        count = count + below;
    }
    assert(hs.subrange(0, len as int) =~= hs);
    proof {
        lemma_coords(n as nat, blank as int);
    }
    let bx = blank % n;
    let by = blank / n;
    let d = (if bx > goal[0].0 { bx - goal[0].0 } else { goal[0].0 - bx }) + (if by > goal[0].1 {
        by - goal[0].1
    } else {
        goal[0].1 - by
    });
    count % 2 == (d as u64) % 2
}

/// `s` with the values at positions `i` and `j` exchanged.
pub open spec fn swap_at(s: Seq<int>, i: int, j: int) -> Seq<int> {
    s.update(i, s[j]).update(j, s[i])
}

pub open spec fn distinct(s: Seq<int>) -> bool {
    forall|i: int, j: int| 0 <= i < j < s.len() ==> s[i] != s[j]
}

proof fn lemma_count_swap_adjacent(x: int, t: Seq<int>, k: int)
    requires
        0 <= k < t.len() - 1,
    ensures
        count_below(x, swap_at(t, k, k + 1)) == count_below(x, t),
    decreases k,
{
    let u = swap_at(t, k, k + 1);
    if k == 0 {
        let r = t.drop_first().drop_first();
        assert(u.drop_first().drop_first() =~= r);
        assert(u[0] == t[1] && u.drop_first()[0] == t[0]);
        assert(count_below(x, u.drop_first()) == (if x > t[0] { 1nat } else { 0nat }) + count_below(x, r));
        assert(count_below(x, t.drop_first()) == (if x > t[1] { 1nat } else { 0nat }) + count_below(x, r));
    } else {
        assert(u.drop_first() =~= swap_at(t.drop_first(), k - 1, k));
        lemma_count_swap_adjacent(x, t.drop_first(), k - 1);
    }
}

proof fn lemma_inversions_swap_adjacent(s: Seq<int>, k: int)
    requires
        0 <= k < s.len() - 1,
        s[k] != s[k + 1],
    ensures
        inversions(swap_at(s, k, k + 1)) % 2 != inversions(s) % 2,
    decreases k,
{
    let u = swap_at(s, k, k + 1);
    if k == 0 {
        let a = s[0];
        let b = s[1];
        let r = s.drop_first().drop_first();
        assert(u.drop_first().drop_first() =~= r);
        assert(u[0] == b && u.drop_first()[0] == a);
        assert(count_below(a, s.drop_first()) == (if a > b { 1nat } else { 0nat }) + count_below(a, r));
        assert(inversions(s.drop_first()) == count_below(b, r) + inversions(r));
        assert(count_below(b, u.drop_first()) == (if b > a { 1nat } else { 0nat }) + count_below(b, r));
        assert(inversions(u.drop_first()) == count_below(a, r) + inversions(r));
    } else {
        assert(u.drop_first() =~= swap_at(s.drop_first(), k - 1, k));
        assert(u[0] == s[0]);
        lemma_count_swap_adjacent(s[0], s.drop_first(), k - 1);
        lemma_inversions_swap_adjacent(s.drop_first(), k - 1);
    }
}

/// Exchanging two values of a sequence of distinct values changes the parity of
/// its inversions.
pub proof fn lemma_inversions_swap(s: Seq<int>, p: int, q: int)
    requires
        0 <= p < q < s.len(),
        distinct(s),
    ensures
        inversions(swap_at(s, p, q)) % 2 != inversions(s) % 2,
    decreases q - p,
{
    if q == p + 1 {
        lemma_inversions_swap_adjacent(s, p);
    } else {
        let s1 = swap_at(s, p, p + 1);
        let s2 = swap_at(s1, p + 1, q);
        let s3 = swap_at(s2, p, p + 1);
        lemma_inversions_swap_adjacent(s, p);
        assert(distinct(s1)) by {
            assert forall|i: int, j: int| 0 <= i < j < s1.len() implies s1[i] != s1[j] by {
                let oi = if i == p { p + 1 } else if i == p + 1 { p } else { i };
                let oj = if j == p { p + 1 } else if j == p + 1 { p } else { j };
                assert(s1[i] == s[oi] && s1[j] == s[oj]);
                if oi > oj {
                    assert(s[oj] != s[oi]);
                }
            }
        }
        lemma_inversions_swap(s1, p + 1, q);
        assert(s2[p] == s[p + 1] && s2[p + 1] == s[q]);
        lemma_inversions_swap_adjacent(s2, p);
        assert(s3 =~= swap_at(s, p, q));
    }
}

/// A strictly increasing sequence has no inversions.
proof fn lemma_sorted_no_inversions(s: Seq<int>)
    requires
        forall|i: int, j: int| 0 <= i < j < s.len() ==> s[i] < s[j],
    ensures
        inversions(s) == 0,
    decreases s.len(),
{
    if s.len() > 0 {
        lemma_none_below(s[0], s.drop_first());
        lemma_sorted_no_inversions(s.drop_first());
    }
}

proof fn lemma_none_below(x: int, t: Seq<int>)
    requires
        forall|i: int| 0 <= i < t.len() ==> x < t[i],
    ensures
        count_below(x, t) == 0,
    decreases t.len(),
{
    if t.len() > 0 {
        lemma_none_below(x, t.drop_first());
    }
}

/// The target positions of the tiles of a valid grid are distinct.
proof fn lemma_homes_distinct(n: nat, cells: Seq<usize>)
    requires
        valid_board(n, cells),
    ensures
        distinct(homes(n, spiral_layout(n), cells)),
{
    let l = spiral_layout(n);
    let hs = homes(n, l, cells);
    lemma_spiral_bijection(n);
    assert forall|i: int, j: int| 0 <= i < j < hs.len() implies hs[i] != hs[j] by {
        let v = cells[i];
        let w = cells[j];
        assert(v != w);
        let cv = l[v as int];
        let cw = l[w as int];
        lemma_flat(n, cv.0 as int, cv.1 as int);
        lemma_flat(n, cw.0 as int, cw.1 as int);
        assert(cv != cw);
    }
}

/// Distance of flat position `b` from the cell `(cx, cy)`, along the axes.
pub open spec fn blank_distance(n: nat, b: int, cx: int, cy: int) -> int {
    int_abs(col(n, b) - cx) + int_abs(row(n, b) - cy)
}

proof fn lemma_blank_step(n: nat, p: int, q: int, cx: int, cy: int)
    requires
        adjacent(n, p, q),
    ensures
        blank_distance(n, q, cx, cy) % 2 != blank_distance(n, p, cx, cy) % 2,
{
}

proof fn lemma_slide_swaps_homes(n: nat, l: Seq<(usize, usize)>, cells: Seq<usize>, p: int, q: int)
    requires
        0 <= p < cells.len(),
        0 <= q < cells.len(),
        cells[p] == 0,
    ensures
        homes(n, l, slide(cells, p, q)) == swap_at(homes(n, l, cells), p, q),
        homes(n, l, slide(cells, p, q)) == swap_at(homes(n, l, cells), q, p),
{
    let hs = homes(n, l, cells);
    let ht = homes(n, l, slide(cells, p, q));
    assert(ht =~= swap_at(hs, p, q));
    assert(ht =~= swap_at(hs, q, p));
}

/// One move keeps the parity relation: it exchanges two target positions and
/// moves the blank one step.
pub proof fn lemma_move_keeps_parity(n: nat, cells: Seq<usize>, p: int, q: int)
    requires
        valid_board(n, cells),
        blank_at(cells, p),
        adjacent(n, p, q),
    ensures
        parity_matches(n, spiral_layout(n), slide(cells, p, q), q) == parity_matches(n, spiral_layout(n), cells, p),
{
    let l = spiral_layout(n);
    let hs = homes(n, l, cells);
    lemma_homes_distinct(n, cells);
    lemma_slide_swaps_homes(n, l, cells, p, q);
    if p < q {
        lemma_inversions_swap(hs, p, q);
    } else {
        lemma_inversions_swap(hs, q, p);
    }
    lemma_blank_step(n, p, q, l[0].0 as int, l[0].1 as int);
    assert(blank_distance(n, p, l[0].0 as int, l[0].1 as int) == int_abs(col(n, p) - l[0].0) + int_abs(
        row(n, p) - l[0].1,
    ));
    assert(blank_distance(n, q, l[0].0 as int, l[0].1 as int) == int_abs(col(n, q) - l[0].0) + int_abs(
        row(n, q) - l[0].1,
    ));
}

/// The solved grid meets the parity relation.
pub proof fn lemma_goal_parity(n: nat, p: int)
    requires
        1 <= n <= MAX_SIDE,
        blank_at(goal_cells(n), p),
    ensures
        parity_matches(n, spiral_layout(n), goal_cells(n), p),
{
    let l = spiral_layout(n);
    let g = goal_cells(n);
    let hs = homes(n, l, g);
    lemma_side_square(n);
    assert forall|i: int| 0 <= i < hs.len() implies hs[i] == i by {
        lemma_coords(n, i);
        let v = spiral_index(n, col(n, i), row(n, i));
        lemma_index_then_coord(n, col(n, i), row(n, i));
        assert(g[i] as int == v);
    }
    lemma_sorted_no_inversions(hs);
    lemma_coords(n, p);
    lemma_index_then_coord(n, col(n, p), row(n, p));
    assert(spiral_index(n, col(n, p), row(n, p)) == 0);
    assert(n * n >= 1) by (nonlinear_arith)
        requires
            n >= 1,
    ;
    lemma_coord_then_index(n, 0);
    assert(l[0].0 == center(n).0 && l[0].1 == center(n).1);
}

/// Solvability needs the parity relation: if some sequence of moves leads from
/// a valid grid to the solved grid, the grid meets it. So a grid that fails the
/// parity test cannot be solved.
pub proof fn lemma_parity_necessary(n: nat, path: Seq<Seq<usize>>, p: int)
    requires
        1 <= n <= MAX_SIDE,
        path.len() >= 1,
        valid_board(n, path[0]),
        blank_at(path[0], p),
        forall|i: int| 0 <= i < path.len() - 1 ==> is_move(n, #[trigger] path[i], path[i + 1]),
        path.last() == goal_cells(n),
    ensures
        parity_matches(n, spiral_layout(n), path[0], p),
    decreases path.len(),
{
    if path.len() == 1 {
        lemma_goal_parity(n, p);
    } else {
        let a = path[0];
        assert(is_move(n, a, path[1]));
        let (p0, q) = choose|p0: int, q: int| a[p0] == 0 && adjacent(n, p0, q) && path[1] == #[trigger] slide(a, p0, q);
        assert(p0 == p) by {
            if p0 != p {
                if p0 < p {
                    assert(a[p0] != a[p]);
                } else {
                    assert(a[p] != a[p0]);
                }
            }
        }
        lemma_slide_valid(n, a, p, q);
        let rest = path.drop_first();
        assert forall|i: int| 0 <= i < rest.len() - 1 implies is_move(n, #[trigger] rest[i], rest[i + 1]) by {
            assert(rest[i] == path[i + 1] && rest[i + 1] == path[i + 2]);
            assert(is_move(n, path[i + 1], path[i + 2]));
        }
        lemma_parity_necessary(n, rest, q);
        lemma_move_keeps_parity(n, a, p, q);
    }
}

} // verus!

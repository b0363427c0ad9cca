use vstd::prelude::*;

verus! {

/// Largest accepted side length: every heuristic total over a board of this
/// side fits in 64 bits.
pub const MAX_SIDE: usize = 32768;

/// `cells` is a row-major `n`×`n` grid holding each of `0 .. n*n` exactly once.
pub open spec fn valid_cells(n: nat, cells: Seq<usize>) -> bool {
    &&& cells.len() == n * n
    &&& forall|i: int| 0 <= i < cells.len() ==> (#[trigger] cells[i]) < n * n
    &&& forall|i: int, j: int|
        0 <= i < j < cells.len() ==> #[trigger] cells[i] != #[trigger] cells[j]
}

/// A side that the library accepts, and a valid grid of that side.
pub open spec fn valid_board(n: nat, cells: Seq<usize>) -> bool {
    &&& 1 <= n <= MAX_SIDE
    &&& valid_cells(n, cells)
}

/// Column of the flat position `p`.
pub open spec fn col(n: nat, p: int) -> int {
    p % (n as int)
}

/// Row of the flat position `p`.
pub open spec fn row(n: nat, p: int) -> int {
    p / (n as int)
}

pub open spec fn int_abs(a: int) -> int {
    if a < 0 { -a } else { a }
}

/// Flat positions `p` and `q` are orthogonal neighbours on an `n`×`n` grid.
pub open spec fn adjacent(n: nat, p: int, q: int) -> bool {
    &&& 0 <= p < n * n
    &&& 0 <= q < n * n
    &&& int_abs(col(n, p) - col(n, q)) + int_abs(row(n, p) - row(n, q)) == 1
}

/// The grid after the blank at `p` trades places with the tile at `q`.
pub open spec fn slide(cells: Seq<usize>, p: int, q: int) -> Seq<usize> {
    cells.update(p, cells[q]).update(q, 0)
}

/// `b` is reached from `a` by one move of the blank.
pub open spec fn is_move(n: nat, a: Seq<usize>, b: Seq<usize>) -> bool {
    exists|p: int, q: int| a[p] == 0 && adjacent(n, p, q) && b == #[trigger] slide(a, p, q)
}

/// Position of the blank in the grid.
pub open spec fn blank_at(cells: Seq<usize>, p: int) -> bool {
    0 <= p < cells.len() && cells[p] == 0
}

/// Row-major cells of an `n`×`n` grid given by rows.
pub open spec fn flatten_rows(n: nat, rows: Seq<Seq<usize>>) -> Seq<usize> {
    Seq::new(n * n, |p: int| rows[row(n, p)][col(n, p)])
}

/// Every row has as many cells as there are rows.
pub open spec fn is_square(rows: Seq<Seq<usize>>) -> bool {
    forall|y: int| 0 <= y < rows.len() ==> (#[trigger] rows[y]).len() == rows.len()
}

/// Why a grid of rows is not a puzzle.
#[derive(Clone, Copy, Debug, PartialEq, Eq)]
pub enum BoardError {
    /// No rows at all.
    Empty,
    /// More rows than `MAX_SIDE`.
    TooLarge,
    /// A row whose length differs from the number of rows.
    NotSquare,
    /// A value of `n*n` or more.
    OutOfRange,
    /// A value that appears twice.
    Duplicate,
}

/// An immutable, validated square grid of tiles stored row by row; 0 is the blank.
pub struct Board {
    side: usize,
    cells: Vec<usize>,
}

impl View for Board {
    type V = Seq<usize>;

    closed spec fn view(&self) -> Seq<usize> {
        self.cells@
    }
}

impl Board {
    pub closed spec fn spec_side(&self) -> nat {
        self.side as nat
    }

    pub open spec fn wf(&self) -> bool {
        valid_board(self.spec_side(), self@)
    }

    /// Side length of the grid.
    pub fn side(&self) -> (r: usize)
        ensures
            r == self.spec_side(),
    {
        self.side
    }

    /// The cells, row by row.
    pub fn cells(&self) -> (r: &Vec<usize>)
        ensures
            r@ == self@,
    {
        &self.cells
    }

    /// Builds a board from its rows, checking that they form a valid grid.
    pub fn from_rows(rows: &Vec<Vec<usize>>) -> (r: Result<Board, BoardError>)
        ensures
            ({
                let n = rows@.len();
                let rs = rows@.map_values(|v: Vec<usize>| v@);
                &&& r is Ok <==> 1 <= n <= MAX_SIDE && is_square(rs) && valid_cells(n as nat, flatten_rows(n as nat, rs))
                &&& r matches Ok(b) ==> b.wf() && b.spec_side() == n && b@ == flatten_rows(n as nat, rs)
                &&& r matches Err(e) ==> {
                    &&& (e == BoardError::Empty <==> n == 0)
                    &&& (e == BoardError::TooLarge <==> n > MAX_SIDE)
                    &&& (e == BoardError::NotSquare <==> 1 <= n <= MAX_SIDE && !is_square(rs))
                    &&& (e == BoardError::OutOfRange <==> 1 <= n <= MAX_SIDE && is_square(rs)
                        && exists|i: int| 0 <= i < n * n && flatten_rows(n as nat, rs)[i] >= n * n)
                    &&& (e == BoardError::Duplicate <==> 1 <= n <= MAX_SIDE && is_square(rs)
                        && (forall|i: int| 0 <= i < n * n ==> flatten_rows(n as nat, rs)[i] < n * n)
                        && !valid_cells(n as nat, flatten_rows(n as nat, rs)))
                }
            }),
    {
        let n = rows.len();
        let ghost rs = rows@.map_values(|v: Vec<usize>| v@);
        if n == 0 {
            return Err(BoardError::Empty);
        }
        if n > MAX_SIDE {
            return Err(BoardError::TooLarge);
        }
        proof {
            lemma_side_square(n as nat);
        }
        let mut y: usize = 0;
        while y < n
            invariant
                1 <= n <= MAX_SIDE,
                n == rows@.len(),
                rs == rows@.map_values(|v: Vec<usize>| v@),
                y <= n,
                forall|k: int| 0 <= k < y ==> (#[trigger] rs[k]).len() == n,
            decreases n - y,
        {
            if rows[y].len() != n {
                assert(rs[y as int].len() != rs.len());
                assert(!is_square(rs));
                return Err(BoardError::NotSquare);
            }
            y = y + 1;
        }
        let mut cells: Vec<usize> = Vec::with_capacity(n * n);
        let mut y: usize = 0;
        while y < n
            invariant
                1 <= n <= MAX_SIDE,
                n == rows@.len(),
                rs == rows@.map_values(|v: Vec<usize>| v@),
                is_square(rs),
                y <= n,
                cells@.len() == y * n,
                forall|p: int| 0 <= p < cells@.len() ==> cells@[p] == rs[row(n as nat, p)][col(n as nat, p)],
            decreases n - y,
        {
            let mut x: usize = 0;
            assert(rs[y as int].len() == n);
            assert(y * n + n <= n * n) by (nonlinear_arith)
                requires
                    y < n,
            ;
            while x < n
                invariant
                    1 <= n <= MAX_SIDE,
                    n == rows@.len(),
                    rs == rows@.map_values(|v: Vec<usize>| v@),
                    is_square(rs),
                    y < n,
                    x <= n,
                    rows@[y as int]@.len() == n,
                    cells@.len() == y * n + x,
                    forall|p: int| 0 <= p < cells@.len() ==> cells@[p] == rs[row(n as nat, p)][col(n as nat, p)],
                decreases n - x,
            {
                proof {
                    lemma_flat(n as nat, x as int, y as int);
                }
                cells.push(rows[y][x]);
                x = x + 1;
            }
            assert(y * n + n == (y + 1) * n) by (nonlinear_arith);
            y = y + 1;
        }
        assert(cells@ =~= flatten_rows(n as nat, rs));
        Board::from_cells(n, cells)
    }

    /// The grid as rows, for display.
    pub fn rows(&self) -> (r: Vec<Vec<usize>>)
        requires
            self.wf(),
        ensures
            r@.len() == self.spec_side(),
            forall|y: int| 0 <= y < r@.len() ==> (#[trigger] r@[y])@.len() == self.spec_side(),
            flatten_rows(self.spec_side(), r@.map_values(|v: Vec<usize>| v@)) == self@,
    {
        let n = self.side;
        proof {
            lemma_side_square(n as nat);
        }
        let mut r: Vec<Vec<usize>> = Vec::with_capacity(n);
        let mut y: usize = 0;
        while y < n
            invariant
                self.wf(),
                n == self.spec_side(),
                n * n <= 0x4000_0000,
                y <= n,
                r@.len() == y,
                forall|k: int| 0 <= k < y ==> (#[trigger] r@[k])@.len() == n,
                forall|k: int, x: int| 0 <= k < y && 0 <= x < n ==> #[trigger] r@[k]@[x] == self@[k * n + x],
            decreases n - y,
        {
            let mut line: Vec<usize> = Vec::with_capacity(n);
            let mut x: usize = 0;
            while x < n
                invariant
                    self.wf(),
                    n == self.spec_side(),
                    y < n,
                    x <= n,
                    n * n <= 0x4000_0000,
                    line@.len() == x,
                    forall|j: int| 0 <= j < x ==> line@[j] == self@[y * n + j],
                decreases n - x,
            {
                proof {
                    lemma_flat(n as nat, x as int, y as int);
                }
                line.push(self.cells[y * n + x]);
                x = x + 1;
            }
            r.push(line);
            y = y + 1;
        }
        let ghost rs = r@.map_values(|v: Vec<usize>| v@);
        assert forall|p: int| 0 <= p < n * n implies #[trigger] flatten_rows(n as nat, rs)[p] == self@[p] by {
            lemma_coords(n as nat, p);
            assert(rs[row(n as nat, p)] == r@[row(n as nat, p)]@);
        }
        assert(flatten_rows(n as nat, rs) =~= self@);
        r
    }

    /// Builds a board from row-major cells already known to form a valid grid.
    pub fn from_valid(side: usize, cells: Vec<usize>) -> (r: Board)
        requires
            valid_board(side as nat, cells@),
        ensures
            r@ == cells@,
            r.spec_side() == side,
            r.wf(),
    {
        Board { side, cells }
    }

    /// Builds a board from row-major cells, checking that they form a valid grid.
    pub fn from_cells(side: usize, cells: Vec<usize>) -> (r: Result<Board, BoardError>)
        ensures
            r is Ok <==> valid_board(side as nat, cells@),
            r matches Ok(b) ==> b@ == cells@ && b.spec_side() == side && b.wf(),
            r matches Err(e) ==> {
                &&& (e == BoardError::Empty <==> side == 0)
                &&& (e == BoardError::TooLarge <==> side > MAX_SIDE)
                &&& (e == BoardError::NotSquare <==> 1 <= side <= MAX_SIDE && cells@.len()
                    != side * side)
                &&& (e == BoardError::OutOfRange <==> 1 <= side <= MAX_SIDE && cells@.len()
                    == side * side && exists|i: int|
                    0 <= i < cells@.len() && cells@[i] >= side * side)
                &&& (e == BoardError::Duplicate <==> 1 <= side <= MAX_SIDE && cells@.len()
                    == side * side && (forall|i: int|
                    0 <= i < cells@.len() ==> cells@[i] < side * side) && !valid_cells(
                    side as nat,
                    cells@,
                ))
            },
    {
        if side == 0 {
            return Err(BoardError::Empty);
        }
        if side > MAX_SIDE {
            return Err(BoardError::TooLarge);
        }
        assert(side * side <= MAX_SIDE * MAX_SIDE) by (nonlinear_arith)
            requires
                side <= MAX_SIDE,
        ;
        let total = side * side;
        if cells.len() != total {
            return Err(BoardError::NotSquare);
        }
        let mut i: usize = 0;
        while i < total
            invariant
                0 <= i <= total,
                total == side * side,
                1 <= side <= MAX_SIDE,
                cells@.len() == total,
                forall|j: int| 0 <= j < i ==> cells@[j] < total,
            decreases total - i,
        {
            if cells[i] >= total {
                assert(cells@[i as int] >= side * side);
                return Err(BoardError::OutOfRange);
            }
            i = i + 1;
        }
        let mut seen: Vec<bool> = Vec::new();
        let mut k: usize = 0;
        while k < total
            invariant
                0 <= k <= total,
                seen@.len() == k,
                forall|j: int| 0 <= j < k ==> !seen@[j],
            decreases total - k,
        {
            seen.push(false);
            k = k + 1;
        }
        let mut i: usize = 0;
        while i < total
            invariant
                0 <= i <= total,
                total == side * side,
                1 <= side <= MAX_SIDE,
                cells@.len() == total,
                seen@.len() == total,
                forall|j: int| 0 <= j < total ==> cells@[j] < total,
                forall|j: int, l: int| 0 <= j < l < i ==> cells@[j] != cells@[l],
                forall|v: int|
                    0 <= v < total ==> (seen@[v] <==> exists|j: int|
                        0 <= j < i && cells@[j] == v),
            decreases total - i,
        {
            let v = cells[i];
            if seen[v] {
                let ghost w = v as int;
                assert(exists|j: int| 0 <= j < i && cells@[j] == w);
                let ghost j = choose|j: int| 0 <= j < i && cells@[j] == w;
                assert(cells@[j] == cells@[i as int]);
                assert(!valid_cells(side as nat, cells@));
                return Err(BoardError::Duplicate);
            }
            seen.set(v, true);
            assert forall|u: int| 0 <= u < total implies (seen@[u] <==> exists|j: int|
                0 <= j < i + 1 && cells@[j] == u) by {
                if u == v {
                    assert(cells@[i as int] == u);
                } else if seen@[u] {
                    let j = choose|j: int| 0 <= j < i && cells@[j] == u;
                    assert(0 <= j < i + 1 && cells@[j] == u);
                }
            }
            i = i + 1;
        }
        Ok(Board { side, cells })
    }
}

} // verus!

verus! {

/// Row and column of a flat position lie on the grid and rebuild it.
pub proof fn lemma_coords(n: nat, p: int)
    requires
        n > 0,
        0 <= p < n * n,
    ensures
        0 <= col(n, p) < n,
        0 <= row(n, p) < n,
        p == row(n, p) * n + col(n, p),
{
    let d = n as int;
    vstd::arithmetic::div_mod::lemma_fundamental_div_mod(p, d);
    vstd::arithmetic::div_mod::lemma_mod_pos_bound(p, d);
    let q = p / d;
    let r = p % d;
    assert(p == q * d + r) by (nonlinear_arith)
        requires
            p == d * q + r,
    ;
    assert(0 <= q < d) by (nonlinear_arith)
        requires
            p == q * d + r,
            0 <= r < d,
            0 <= p < d * d,
    ;
}

/// The flat position of column `x` and row `y`.
pub proof fn lemma_flat(n: nat, x: int, y: int)
    requires
        0 <= x < n,
        0 <= y < n,
    ensures
        0 <= y * n + x < n * n,
        col(n, y * n + x) == x,
        row(n, y * n + x) == y,
{
    assert(0 <= y * n + x < n * n) by (nonlinear_arith)
        requires
            0 <= x < n,
            0 <= y < n,
    ;
    vstd::arithmetic::div_mod::lemma_fundamental_div_mod_converse(y * n + x, n as int, y, x);
}

/// Finds the flat position of the blank.
pub fn find_empty(board: &Board) -> (r: usize)
    requires
        board.wf(),
    ensures
        blank_at(board@, r as int),
{
    let cells = board.cells();
    let n = board.side();
    proof {
        lemma_blank_exists(n as nat, cells@);
    }
    let mut p: usize = 0;
    while p < cells.len()
        invariant
            valid_board(n as nat, cells@),
            cells@ == board@,
            exists|i: int| p <= i < cells@.len() && cells@[i] == 0,
        decreases cells.len() - p,
    {
        if cells[p] == 0 {
            return p;
        }
        p = p + 1;
    }
    proof {
        let i = choose|i: int| p <= i < cells@.len() && cells@[i] == 0;
    }
    0
}

/// A valid grid holds a blank: its `n*n` distinct values below `n*n` are all of them.
pub proof fn lemma_blank_exists(n: nat, cells: Seq<usize>)
    requires
        valid_board(n, cells),
    ensures
        exists|i: int| 0 <= i < cells.len() && cells[i] == 0,
{
    lemma_side_square(n);
    lemma_distinct_values_fill(n, cells);
}

/// The number of cells of an accepted side fits comfortably in memory words.
pub proof fn lemma_side_square(n: nat)
    requires
        n <= MAX_SIDE,
    ensures
        n * n <= MAX_SIDE * MAX_SIDE,
        n * n <= 0x4000_0000,
{
    assert(n * n <= MAX_SIDE * MAX_SIDE) by (nonlinear_arith)
        requires
            n <= MAX_SIDE,
    ;
}

/// `n*n` distinct values below `n*n` cannot all be nonzero.
proof fn lemma_distinct_values_fill(n: nat, cells: Seq<usize>)
    requires
        valid_cells(n, cells),
        n >= 1,
        n * n <= usize::MAX,
    ensures
        exists|i: int| 0 <= i < cells.len() && cells[i] == 0,
{
    if forall|i: int| 0 <= i < cells.len() ==> cells[i] != 0 {
    let s = cells.to_set();
    cells.unique_seq_to_set();
    let range = Set::new(|v: usize| 1 <= v < n * n);
    assert(s.subset_of(range));
    assert(n * n >= 1) by (nonlinear_arith)
        requires
            n >= 1,
    ;
    lemma_range_len(n * n);
    vstd::set_lib::lemma_len_subset(s, range);
    }
}

/// `{v : 1 <= v < m}` has `m - 1` elements.
proof fn lemma_range_len(m: nat)
    requires
        1 <= m <= usize::MAX,
    ensures
        Set::new(|v: usize| 1 <= v < m).finite(),
        Set::new(|v: usize| 1 <= v < m).len() == m - 1,
    decreases m,
{
    let s = Set::new(|v: usize| 1 <= v < m);
    if m == 1 {
        assert(s =~= Set::empty());
    } else {
        lemma_range_len((m - 1) as nat);
        let t = Set::new(|v: usize| 1 <= v < (m - 1) as nat);
        assert(s =~= t.insert((m - 1) as usize));
    }
}

} // verus!

verus! {

/// Sliding the blank keeps a valid grid valid and moves the blank to `q`.
pub proof fn lemma_slide_valid(n: nat, cells: Seq<usize>, p: int, q: int)
    requires
        valid_board(n, cells),
        blank_at(cells, p),
        adjacent(n, p, q),
    ensures
        valid_board(n, slide(cells, p, q)),
        blank_at(slide(cells, p, q), q),
        is_move(n, cells, slide(cells, p, q)),
{
    let s = slide(cells, p, q);
    assert(p != q);
    assert forall|i: int, j: int| 0 <= i < j < s.len() implies #[trigger] s[i] != #[trigger] s[j] by {
        let oi = if i == p { q } else if i == q { p } else { i };
        let oj = if j == p { q } else if j == q { p } else { j };
        assert(s[i] == cells[oi]);
        assert(s[j] == cells[oj]);
        if oi < oj {
        } else {
            assert(cells[oj] != cells[oi]);
        }
    }
    assert forall|i: int| 0 <= i < s.len() implies (#[trigger] s[i]) < n * n by {
        if i != p && i != q {
            assert(s[i] == cells[i]);
        }
    }
}

/// The neighbour of flat position `p` in direction `dir` (0 left, 1 right, 2 up,
/// 3 down), if it lies on the grid.
pub fn neighbor(n: usize, p: usize, dir: usize) -> (r: Option<usize>)
    requires
        1 <= n <= MAX_SIDE,
        p < n * n,
    ensures
        r matches Some(q) ==> adjacent(n as nat, p as int, q as int),
        dir == 0 && col(n as nat, p as int) > 0 ==> r == Some((p - 1) as usize),
        dir == 1 && col(n as nat, p as int) < n - 1 ==> r == Some((p + 1) as usize),
        dir == 2 && row(n as nat, p as int) > 0 ==> r == Some((p - n) as usize),
        dir == 3 && row(n as nat, p as int) < n - 1 ==> r == Some((p + n) as usize),
        r is Some <==> (dir == 0 && col(n as nat, p as int) > 0) || (dir == 1 && col(n as nat, p as int) < n - 1)
            || (dir == 2 && row(n as nat, p as int) > 0) || (dir == 3 && row(n as nat, p as int) < n - 1),
{
    proof {
        lemma_coords(n as nat, p as int);
        lemma_side_square(n as nat);
    }
    let x = p % n;
    let y = p / n;
    if dir == 0 && x > 0 {
        proof {
            lemma_flat(n as nat, x - 1, y as int);
        }
        Some(p - 1)
    } else if dir == 1 && x + 1 < n {
        proof {
            lemma_flat(n as nat, x + 1, y as int);
        }
        Some(p + 1)
    } else if dir == 2 && y > 0 {
        proof {
            lemma_flat(n as nat, x as int, y - 1);
            assert((y - 1) * n + x == p - n) by (nonlinear_arith)
                requires
                    p == y * n + x,
            ;
        }
        Some(p - n)
    } else if dir == 3 && y + 1 < n {
        proof {
            lemma_flat(n as nat, x as int, y + 1);
            assert((y + 1) * n + x == p + n) by (nonlinear_arith)
                requires
                    p == y * n + x,
            ;
        }
        Some(p + n)
    } else {
        None
    }
}

/// Every orthogonal neighbour of `p` is one of the four that `neighbor` offers.
pub proof fn lemma_adjacent_is_neighbor(n: nat, p: int, q: int)
    requires
        adjacent(n, p, q),
    ensures
        (q == p - 1 && col(n, p) > 0) || (q == p + 1 && col(n, p) < n - 1) || (q == p - n && row(n, p) > 0)
            || (q == p + n && row(n, p) < n - 1),
{
    assert(n > 0) by (nonlinear_arith)
        requires
            0 <= p < n * n,
    ;
    lemma_coords(n, p);
    lemma_coords(n, q);
    let rp = row(n, p);
    let rq = row(n, q);
    if rp == rq + 1 {
        assert(rp * n == rq * n + n) by (nonlinear_arith)
            requires
                rp == rq + 1,
        ;
    } else if rq == rp + 1 {
        assert(rq * n == rp * n + n) by (nonlinear_arith)
            requires
                rq == rp + 1,
        ;
    }
}

/// The cells after the blank at `p` trades places with the tile at `q`.
pub fn slide_cells(cells: &Vec<usize>, p: usize, q: usize) -> (r: Vec<usize>)
    requires
        p < cells@.len(),
        q < cells@.len(),
    ensures
        r@ == slide(cells@, p as int, q as int),
{
    let mut r: Vec<usize> = Vec::with_capacity(cells.len());
    let mut i: usize = 0;
    while i < cells.len()
        invariant
            i <= cells@.len(),
            p < cells@.len(),
            q < cells@.len(),
            r@.len() == i,
            forall|k: int| 0 <= k < i ==> r@[k] == slide(cells@, p as int, q as int)[k],
        decreases cells.len() - i,
    {
        let v = if i == q {
            0
        } else if i == p {
            cells[q]
        } else {
            cells[i]
        };
        r.push(v);
        i = i + 1;
    }
    assert(r@ =~= slide(cells@, p as int, q as int));
    r
}

} // verus!

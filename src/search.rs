use vstd::prelude::*;

use crate::board::{
    adjacent, blank_at, col, find_empty, is_move, lemma_adjacent_is_neighbor, lemma_side_square, lemma_slide_valid,
    neighbor, row, slide, slide_cells, valid_board, Board, MAX_SIDE,
};
use crate::frontier::{key_lt, Frontier, FrontierEntry};
use crate::goal::{
    build_spiral, goal_cells, lemma_goal_estimate_zero, lemma_spiral_bijection, lemma_zero_estimate_is_goal,
    spiral_layout,
};
use crate::heuristic::{compute_cells_distance, compute_distance, estimate, layout_fits, lemma_manhattan_move, Heuristic};
use crate::parity::{lemma_parity_necessary, parity_allows, parity_matches};
use crate::parse::{parse_puzzle, puzzle_spec, ParseError};
use crate::visited::{costs_no_worse, lemma_wf_entry, lemma_wf_node, lemma_wf_same_grid, lemma_wf_start, VisitedTable};

verus! {

/// How a search ended.
#[derive(Clone, Copy, Debug, PartialEq, Eq)]
pub enum Status {
    /// The goal was reached; the report holds the path.
    Solved,
    /// The parity test shows the goal cannot be reached; nothing was searched.
    Unsolvable,
    /// Every reachable grid was explored without reaching the goal.
    NoSolution,
    /// The expansion budget ran out first.
    BudgetExhausted,
    /// No node number was left for another grid.
    OutOfRoom,
}

/// Result of a search with its statistics.
pub struct SolveReport {
    pub status: Status,
    /// Grids from the start to the goal when solved, empty otherwise.
    pub path: Vec<Board>,
    /// Nodes expanded.
    pub expanded: usize,
    /// Stale frontier entries dropped plus candidate grids discarded.
    pub skipped: usize,
    /// Largest frontier size seen after an expansion.
    pub max_states: usize,
}

impl SolveReport {
    /// Number of moves of the solution: one less than the grids on its path.
    pub fn moves(&self) -> (r: usize)
        requires
            self.path@.len() >= 1,
        ensures
            r == self.path@.len() - 1,
    {
        self.path.len() - 1
    }
}

/// `path` is a sequence of moves from `start` to the solved grid of side `n`.
pub open spec fn solves(n: nat, start: Seq<usize>, path: Seq<Seq<usize>>) -> bool {
    &&& path.len() >= 1
    &&& path[0] == start
    &&& path.last() == goal_cells(n)
    &&& forall|i: int| 0 <= i < path.len() - 1 ==> is_move(n, #[trigger] path[i], path[i + 1])
}

/// The grid `cells` of side `n` is rejected by the parity test.
pub open spec fn rejected_by_parity_cells(n: nat, cells: Seq<usize>, check_parity: bool) -> bool {
    check_parity && !parity_matches(n, spiral_layout(n), cells, choose|p: int| blank_at(cells, p))
}

/// Outcome that needs no search: the start is rejected by the parity test.
pub open spec fn rejected_by_parity(board: Board, check_parity: bool) -> bool {
    check_parity && !parity_matches(
        board.spec_side(),
        spiral_layout(board.spec_side()),
        board@,
        choose|p: int| blank_at(board@, p),
    )
}

/// Every grid along a sequence of moves from a valid grid is valid.
proof fn lemma_path_valid(n: nat, path: Seq<Seq<usize>>, i: int)
    requires
        path.len() >= 1,
        valid_board(n, path[0]),
        forall|j: int| 0 <= j < path.len() - 1 ==> is_move(n, #[trigger] path[j], path[j + 1]),
        0 <= i < path.len(),
    ensures
        valid_board(n, path[i]),
    decreases i,
{
    if i > 0 {
        lemma_path_valid(n, path, i - 1);
        let a = path[i - 1];
        assert(is_move(n, a, path[i]));
        let (p, q) = choose|p: int, q: int| a[p] == 0 && adjacent(n, p, q) && path[i] == #[trigger] slide(a, p, q);
        lemma_slide_valid(n, a, p, q);
    }
}

/// Along a sequence of moves to the solved grid, the Manhattan estimate of each
/// grid is at most the number of moves still to come.
pub proof fn lemma_manhattan_admissible(n: nat, path: Seq<Seq<usize>>, i: int)
    requires
        1 <= n <= MAX_SIDE,
        valid_board(n, path[0]),
        solves(n, path[0], path),
        0 <= i < path.len(),
    ensures
        estimate(Heuristic::Manhattan, spiral_layout(n), n, path[i]) <= path.len() - 1 - i,
    decreases path.len() - i,
{
    if i == path.len() - 1 {
        lemma_goal_estimate_zero(Heuristic::Manhattan, n);
    } else {
        lemma_manhattan_admissible(n, path, i + 1);
        lemma_path_valid(n, path, i);
        let a = path[i];
        assert(is_move(n, a, path[i + 1]));
        let (p, q) = choose|p: int, q: int| a[p] == 0 && adjacent(n, p, q) && path[i + 1] == #[trigger] slide(a, p, q);
        lemma_spiral_bijection(n);
        lemma_manhattan_move(n, spiral_layout(n), a, p, q);
    }
}

/// Each frontier entry names a stored node and carries its `f = g + h` and `h`.
#[verifier::opaque]
pub open spec fn entries_match(table: VisitedTable, frontier: Frontier) -> bool {
    forall|k: int|
        0 <= k < frontier@.len() ==> {
            let e = #[trigger] frontier@[k];
            &&& e.node < table.spec_nodes().len()
            &&& e.h == table.spec_nodes()[e.node as int].h
            &&& e.f == table.spec_nodes()[e.node as int].g + table.spec_nodes()[e.node as int].h
        }
}

/// Each stored node's estimate is the heuristic's value on its grid.
#[verifier::opaque]
pub open spec fn estimates_cached(table: VisitedTable, h: Heuristic) -> bool {
    forall|i: int| 0 <= i < table.spec_nodes().len() ==> (#[trigger] table.spec_nodes()[i]).h
        == estimate(h, spiral_layout(table.spec_side()), table.spec_side(), table.spec_nodes()[i].cells@)
}

/// The best node of grid `c` waits in the frontier.
pub open spec fn queued(table: VisitedTable, frontier: Frontier, c: Seq<usize>) -> bool {
    exists|k: int| 0 <= k < frontier@.len() && (#[trigger] frontier@[k]).node == table.entries()[c]
}

/// Grid `c` was expanded at its best cost: its estimate is positive, and every
/// grid one move away is stored at most one move dearer.
pub open spec fn settled(table: VisitedTable, c: Seq<usize>) -> bool {
    &&& table.spec_nodes()[table.entries()[c] as int].h > 0
    &&& forall|c2: Seq<usize>|
        #[trigger] is_move(table.spec_side(), c, c2) ==> table.best_costs().contains_key(c2)
            && table.best_costs()[c2] <= table.best_costs()[c] + 1
}

/// Every stored grid outside `skip` is queued or settled.
#[verifier::opaque]
pub open spec fn covered(table: VisitedTable, frontier: Frontier, skip: Set<Seq<usize>>) -> bool {
    forall|c: Seq<usize>|
        #[trigger] table.entries().contains_key(c) && !skip.contains(c) ==> queued(table, frontier, c) || settled(
            table,
            c,
        )
}

/// The start's best cost is zero.
proof fn lemma_start_cost(table: VisitedTable)
    requires
        table.wf(),
    ensures
        table.best_costs().contains_key(table.start()),
        table.best_costs()[table.start()] == 0,
{
    lemma_wf_start(table);
    lemma_wf_node(table, 0);
}

/// From a stored grid on a solution, reached at most at its position's cost,
/// some frontier entry waits; under the Manhattan estimate one has `f` at most
/// the solution's number of moves.
proof fn lemma_witness(table: VisitedTable, frontier: Frontier, h: Heuristic, path: Seq<Seq<usize>>, i: int)
    requires
        1 <= table.spec_side() <= MAX_SIDE,
        table.wf(),
        estimates_cached(table, h),
        entries_match(table, frontier),
        covered(table, frontier, Set::empty()),
        solves(table.spec_side(), table.start(), path),
        0 <= i < path.len(),
        table.best_costs().contains_key(path[i]),
        table.best_costs()[path[i]] <= i,
    ensures
        frontier@.len() > 0,
        h == Heuristic::Manhattan ==> exists|k: int|
            0 <= k < frontier@.len() && (#[trigger] frontier@[k]).f <= path.len() - 1,
    decreases path.len() - i,
{
    let n = table.spec_side();
    let c = path[i];
    reveal(covered);
    assert(table.entries().contains_key(c));
    lemma_wf_entry(table, c);
    if queued(table, frontier, c) {
        reveal(entries_match);
        reveal(estimates_cached);
        let k = choose|k: int| 0 <= k < frontier@.len() && (#[trigger] frontier@[k]).node == table.entries()[c];
        if h == Heuristic::Manhattan {
            lemma_wf_start(table);
            lemma_wf_node(table, 0);
            lemma_manhattan_admissible(n, path, i);
            assert(frontier@[k].f <= path.len() - 1);
        }
    } else {
        assert(settled(table, c));
        if i == path.len() - 1 {
            reveal(estimates_cached);
            lemma_goal_estimate_zero(h, n);
        } else {
            assert(is_move(n, path[i], path[i + 1]));
            lemma_witness(table, frontier, h, path, i + 1);
        }
    }
}

/// If the start can be solved, the frontier is not empty, and under the
/// Manhattan estimate its first entry's `f` is at most the number of moves of
/// any solution.
proof fn lemma_frontier_bound(table: VisitedTable, frontier: Frontier, h: Heuristic)
    requires
        1 <= table.spec_side() <= MAX_SIDE,
        table.wf(),
        frontier.wf(),
        estimates_cached(table, h),
        entries_match(table, frontier),
        covered(table, frontier, Set::empty()),
    ensures
        forall|sol: Seq<Seq<usize>>| #[trigger] solves(table.spec_side(), table.start(), sol) ==> frontier@.len() > 0
            && (h == Heuristic::Manhattan ==> frontier@.last().f <= sol.len() - 1),
{
    assert forall|sol: Seq<Seq<usize>>| #[trigger] solves(table.spec_side(), table.start(), sol) implies frontier@.len()
        > 0 && (h == Heuristic::Manhattan ==> frontier@.last().f <= sol.len() - 1) by {
        lemma_start_cost(table);
        lemma_witness(table, frontier, h, sol, 0);
        if h == Heuristic::Manhattan {
            let k = choose|k: int| 0 <= k < frontier@.len() && (#[trigger] frontier@[k]).f <= sol.len() - 1;
            if k < frontier@.len() - 1 {
                assert(key_lt(frontier@.last(), frontier@[k]));
            }
        }
    }
}

/// Taking the last entry out keeps the entries matched; every grid stays queued
/// or settled but the popped node's own grid, and that one too if the popped
/// node is not its best.
proof fn lemma_after_pop(table: VisitedTable, before: Frontier, after: Frontier)
    requires
        table.wf(),
        before@.len() > 0,
        after@ == before@.drop_last(),
        entries_match(table, before),
        covered(table, before, Set::empty()),
    ensures
        entries_match(table, after),
        ({
            let e = before@.last();
            let c = table.spec_nodes()[e.node as int].cells@;
            &&& covered(table, after, Set::empty().insert(c))
            &&& table.entries()[c] != e.node ==> covered(table, after, Set::empty())
        }),
{
    reveal(entries_match);
    reveal(covered);
    let e = before@.last();
    let c0 = table.spec_nodes()[e.node as int].cells@;
    assert forall|k: int| 0 <= k < after@.len() implies {
        let x = #[trigger] after@[k];
        &&& x.node < table.spec_nodes().len()
        &&& x.h == table.spec_nodes()[x.node as int].h
        &&& x.f == table.spec_nodes()[x.node as int].g + table.spec_nodes()[x.node as int].h
    } by {
        assert(after@[k] == before@[k]);
    }
    assert forall|c: Seq<usize>|
        #[trigger] table.entries().contains_key(c) && !(Set::<Seq<usize>>::empty().insert(c0)).contains(c) implies queued(
        table,
        after,
        c,
    ) || settled(table, c) by {
        if queued(table, before, c) {
            let k = choose|k: int| 0 <= k < before@.len() && (#[trigger] before@[k]).node == table.entries()[c];
            if k < before@.len() - 1 {
                assert(after@[k] == before@[k]);
            } else {
                lemma_wf_entry(table, c);
            }
        }
    }
    if table.entries()[c0] != e.node {
        assert forall|c: Seq<usize>|
            #[trigger] table.entries().contains_key(c) && !Set::<Seq<usize>>::empty().contains(c) implies queued(
            table,
            after,
            c,
        ) || settled(table, c) by {
            if queued(table, before, c) {
                let k = choose|k: int| 0 <= k < before@.len() && (#[trigger] before@[k]).node == table.entries()[c];
                if k < before@.len() - 1 {
                    assert(after@[k] == before@[k]);
                } else {
                    lemma_wf_entry(table, c);
                }
            }
        }
    }
}

/// Which of the four directions of `neighbor` leads from `p` to the adjacent `q`.
pub open spec fn direction(n: nat, p: int, q: int) -> int {
    if q == p - 1 && col(n, p) > 0 {
        0
    } else if q == p + 1 && col(n, p) < n - 1 {
        1
    } else if q == p - n && row(n, p) > 0 {
        2
    } else {
        3
    }
}

/// Offers the grid reached from node `parent` by sliding its blank to `q`, and
/// queues it if it is stored.
#[verifier::rlimit(50)]
fn relax_and_queue(
    table: &mut VisitedTable,
    frontier: &mut Frontier,
    parent: usize,
    q: usize,
    goal: &Vec<(usize, usize)>,
    heuristic: Heuristic,
    Ghost(skip): Ghost<Set<Seq<usize>>>,
) -> (stored: bool)
    requires
        old(table).wf(),
        1 <= old(table).spec_side() <= MAX_SIDE,
        goal@ == spiral_layout(old(table).spec_side()),
        layout_fits(old(table).spec_side(), goal@),
        parent < old(table).spec_nodes().len() < usize::MAX,
        adjacent(old(table).spec_side(), old(table).spec_nodes()[parent as int].blank as int, q as int),
        old(frontier).wf(),
        old(frontier).spec_next_seq() == old(table).spec_nodes().len(),
        estimates_cached(*old(table), heuristic),
        entries_match(*old(table), *old(frontier)),
        covered(*old(table), *old(frontier), skip),
        !skip.contains(
            slide(
                old(table).spec_nodes()[parent as int].cells@,
                old(table).spec_nodes()[parent as int].blank as int,
                q as int,
            ),
        ),
    ensures
        ({
            let pn = old(table).spec_nodes()[parent as int];
            let c = slide(pn.cells@, pn.blank as int, q as int);
            &&& final(table).best_costs().contains_key(c)
            &&& final(table).best_costs()[c] <= pn.g + 1
            &&& final(table).entries().remove(c) == old(table).entries().remove(c)
            &&& !old(table).entries().contains_key(c) ==> stored
        }),
        (forall|k: int| 0 <= k < old(frontier)@.len() ==> (#[trigger] old(frontier)@[k]).node != 0) ==> (forall|k: int|
            0 <= k < final(frontier)@.len() ==> (#[trigger] final(frontier)@[k]).node != 0),
        final(table).wf(),
        final(table).spec_side() == old(table).spec_side(),
        final(table).start() == old(table).start(),
        final(table).spec_nodes().len() == old(table).spec_nodes().len() + if stored { 1int } else { 0int },
        final(frontier)@.len() == old(frontier)@.len() + if stored { 1int } else { 0int },
        forall|i: int|
            0 <= i < old(table).spec_nodes().len() ==> #[trigger] final(table).spec_nodes()[i]
                == old(table).spec_nodes()[i],
        costs_no_worse(old(table).best_costs(), final(table).best_costs()),
        final(frontier).wf(),
        final(frontier).spec_next_seq() == final(table).spec_nodes().len(),
        estimates_cached(*final(table), heuristic),
        entries_match(*final(table), *final(frontier)),
        covered(*final(table), *final(frontier), skip),
{
    let n = table.side();
    let pnode = table.node(parent);
    let p = pnode.blank;
    proof {
        lemma_wf_node(*table, parent as int);
    }
    let cells = slide_cells(&pnode.cells, p, q);
    proof {
        lemma_slide_valid(n as nat, pnode.cells@, p as int, q as int);
    }
    let h = compute_cells_distance(n, &cells, goal, heuristic);
    let f = pnode.g as u128 + 1 + h as u128;
    let ghost before = *table;
    let ghost fb = *frontier;
    let ghost c = cells@;
    let r = table.relax(parent, cells, q, h);
    proof {
        reveal(estimates_cached);
        assert forall|i: int| 0 <= i < table.spec_nodes().len() implies (#[trigger] table.spec_nodes()[i]).h
            == estimate(heuristic, spiral_layout(table.spec_side()), table.spec_side(), table.spec_nodes()[i].cells@) by {
            if i < before.spec_nodes().len() {
                assert(table.spec_nodes()[i] == before.spec_nodes()[i]);
            }
        }
        assert(table.entries().remove(c) =~= before.entries().remove(c));
    }
    match r {
        Some(i) => {
            frontier.push(f, h, i);
            proof {
                reveal(entries_match);
                reveal(covered);
                let j = choose|j: int|
                    0 <= j <= fb@.len() && frontier@ == #[trigger] fb@.insert(
                        j,
                        (FrontierEntry { f, h, seq: fb.spec_next_seq() as usize, node: i }),
                    );
                lemma_wf_start(before);
                if forall|k: int| 0 <= k < fb@.len() ==> (#[trigger] fb@[k]).node != 0 {
                    assert forall|k: int| 0 <= k < frontier@.len() implies (#[trigger] frontier@[k]).node != 0 by {
                        if k < j {
                            assert(frontier@[k] == fb@[k]);
                        } else if k > j {
                            assert(frontier@[k] == fb@[k - 1]);
                        }
                    }
                }
                assert forall|k: int| 0 <= k < frontier@.len() implies {
                    let e = #[trigger] frontier@[k];
                    &&& e.node < table.spec_nodes().len()
                    &&& e.h == table.spec_nodes()[e.node as int].h
                    &&& e.f == table.spec_nodes()[e.node as int].g + table.spec_nodes()[e.node as int].h
                } by {
                    if k < j {
                        assert(frontier@[k] == fb@[k]);
                        assert(table.spec_nodes()[fb@[k].node as int] == before.spec_nodes()[fb@[k].node as int]);
                    } else if k > j {
                        assert(frontier@[k] == fb@[k - 1]);
                        assert(table.spec_nodes()[fb@[k - 1].node as int] == before.spec_nodes()[fb@[k - 1].node as int]);
                    }
                }
                assert forall|c2: Seq<usize>|
                    #[trigger] table.entries().contains_key(c2) && !skip.contains(c2) implies queued(*table, *frontier, c2)
                    || settled(*table, c2) by {
                    if c2 == c {
                        assert(frontier@[j].node == i);
                    } else {
                        assert(before.entries().contains_key(c2));
                        let b2 = before.entries()[c2];
                        lemma_wf_entry(before, c2);
                        assert(table.spec_nodes()[b2 as int] == before.spec_nodes()[b2 as int]);
                        if queued(before, fb, c2) {
                            let k = choose|k: int| 0 <= k < fb@.len() && (#[trigger] fb@[k]).node == before.entries()[c2];
                            if k < j {
                                assert(frontier@[k] == fb@[k]);
                            } else {
                                assert(frontier@[k + 1] == fb@[k]);
                            }
                        } else {
                            assert(settled(before, c2));
                            assert forall|c3: Seq<usize>| #[trigger] is_move(table.spec_side(), c2, c3) implies table.best_costs().contains_key(c3)
                                && table.best_costs()[c3] <= table.best_costs()[c2] + 1 by {
                                assert(before.best_costs().contains_key(c3));
                            }
                        }
                    }
                }
            }
            true
        },
        None => {
            proof {
                reveal(entries_match);
                reveal(covered);
                assert(table.best_costs() =~= before.best_costs());
            }
            false
        },
    }
}

/// Once every grid one move from the best node of `c` is stored at most one move
/// dearer, `c` is settled, and every stored grid is queued or settled.
proof fn lemma_settle(table: VisitedTable, frontier: Frontier, c: Seq<usize>)
    requires
        table.wf(),
        table.entries().contains_key(c),
        covered(table, frontier, Set::empty().insert(c)),
        ({
            let b = table.spec_nodes()[table.entries()[c] as int];
            &&& b.h > 0
            &&& forall|q: int|
                adjacent(table.spec_side(), b.blank as int, q) ==> {
                    &&& table.best_costs().contains_key(#[trigger] slide(c, b.blank as int, q))
                    &&& table.best_costs()[slide(c, b.blank as int, q)] <= b.g + 1
                }
        }),
    ensures
        covered(table, frontier, Set::empty()),
{
    reveal(covered);
    let n = table.spec_side();
    lemma_wf_entry(table, c);
    let b = table.spec_nodes()[table.entries()[c] as int];
    let p = b.blank as int;
    assert forall|c2: Seq<usize>| #[trigger] is_move(n, c, c2) implies table.best_costs().contains_key(c2)
        && table.best_costs()[c2] <= table.best_costs()[c] + 1 by {
        let (p0, q) = choose|p0: int, q: int| c[p0] == 0 && adjacent(n, p0, q) && c2 == #[trigger] slide(c, p0, q);
        assert(p0 == p) by {
            if p0 < p {
                assert(c[p0] != c[p]);
            } else if p < p0 {
                assert(c[p] != c[p0]);
            }
        }
    }
    assert(settled(table, c));
}

/// Expands node `parent`, the best node of its grid: offers the grid of each
/// move of its blank. Returns how many of them were discarded because a path of
/// at most as many moves was already known.
#[verifier::rlimit(50)]
fn expand(
    table: &mut VisitedTable,
    frontier: &mut Frontier,
    parent: usize,
    goal: &Vec<(usize, usize)>,
    heuristic: Heuristic,
) -> (discarded: usize)
    requires
        old(table).wf(),
        1 <= old(table).spec_side() <= MAX_SIDE,
        goal@ == spiral_layout(old(table).spec_side()),
        layout_fits(old(table).spec_side(), goal@),
        parent < old(table).spec_nodes().len() <= usize::MAX - 4,
        old(table).entries()[old(table).spec_nodes()[parent as int].cells@] == parent,
        old(table).spec_nodes()[parent as int].h > 0,
        old(frontier).wf(),
        old(frontier).spec_next_seq() == old(table).spec_nodes().len(),
        estimates_cached(*old(table), heuristic),
        entries_match(*old(table), *old(frontier)),
        covered(*old(table), *old(frontier), Set::empty().insert(old(table).spec_nodes()[parent as int].cells@)),
    ensures
        final(table).wf(),
        final(table).spec_side() == old(table).spec_side(),
        final(table).start() == old(table).start(),
        discarded <= 4,
        final(table).spec_nodes().len() + discarded <= old(table).spec_nodes().len() + 4,
        final(table).entries().contains_key(old(table).spec_nodes()[parent as int].cells@),
        final(table).entries()[old(table).spec_nodes()[parent as int].cells@] == parent,
        (forall|k: int| 0 <= k < old(frontier)@.len() ==> (#[trigger] old(frontier)@[k]).node != 0) ==> (forall|k: int|
            0 <= k < final(frontier)@.len() ==> (#[trigger] final(frontier)@[k]).node != 0),
        (forall|q: int|
            adjacent(old(table).spec_side(), old(table).spec_nodes()[parent as int].blank as int, q)
                ==> !old(table).entries().contains_key(
                #[trigger] slide(
                    old(table).spec_nodes()[parent as int].cells@,
                    old(table).spec_nodes()[parent as int].blank as int,
                    q,
                ),
            )) ==> discarded == 0,
        final(frontier)@.len() - old(frontier)@.len() == final(table).spec_nodes().len() - old(table).spec_nodes().len(),
        final(frontier).wf(),
        final(frontier).spec_next_seq() == final(table).spec_nodes().len(),
        estimates_cached(*final(table), heuristic),
        entries_match(*final(table), *final(frontier)),
        covered(*final(table), *final(frontier), Set::empty()),
{
    let n = table.side();
    let p = table.node(parent).blank;
    let ghost pn = table.spec_nodes()[parent as int];
    let ghost c = pn.cells@;
    let ghost skip = Set::<Seq<usize>>::empty().insert(c);
    let ghost start_len = table.spec_nodes().len();
    let ghost start_fr = frontier@.len();
    let ghost no_zero = forall|k: int| 0 <= k < frontier@.len() ==> (#[trigger] frontier@[k]).node != 0;
    let ghost fresh = forall|q: int| adjacent(n as nat, p as int, q) ==> !table.entries().contains_key(
        #[trigger] slide(c, p as int, q),
    );
    proof {
        lemma_wf_node(*table, parent as int);
        lemma_side_square(n as nat);
    }
    let mut discarded: usize = 0;
    let mut dir: usize = 0;
    while dir < 4
        invariant
            n == table.spec_side(),
            1 <= n <= MAX_SIDE,
            goal@ == spiral_layout(n as nat),
            layout_fits(n as nat, goal@),
            table.wf(),
            table.start() == old(table).start(),
            parent < start_len <= table.spec_nodes().len(),
            start_len <= usize::MAX - 4,
            table.spec_nodes().len() + discarded <= start_len + dir,
            dir <= 4,
            frontier@.len() - start_fr == table.spec_nodes().len() - start_len,
            table.spec_nodes()[parent as int] == pn,
            c == pn.cells@,
            skip == Set::<Seq<usize>>::empty().insert(c),
            table.entries().contains_key(c),
            table.entries()[c] == parent,
            pn.blank == p,
            p < n * n,
            n * n <= 0x4000_0000,
            valid_board(n as nat, c),
            blank_at(c, p as int),
            pn.h > 0,
            frontier.wf(),
            frontier.spec_next_seq() == table.spec_nodes().len(),
            estimates_cached(*table, heuristic),
            entries_match(*table, *frontier),
            covered(*table, *frontier, skip),
            forall|q: int|
                adjacent(n as nat, p as int, q) && direction(n as nat, p as int, q) < dir ==> {
                    &&& table.best_costs().contains_key(#[trigger] slide(c, p as int, q))
                    &&& table.best_costs()[slide(c, p as int, q)] <= pn.g + 1
                },
            no_zero ==> forall|k: int| 0 <= k < frontier@.len() ==> (#[trigger] frontier@[k]).node != 0,
            fresh ==> discarded == 0,
            fresh ==> forall|q: int|
                adjacent(n as nat, p as int, q) && direction(n as nat, p as int, q) >= dir ==> !table.entries().contains_key(
                    #[trigger] slide(c, p as int, q),
                ),
        decreases 4 - dir,
    {
        let ghost before = *table;
        let nb = neighbor(n, p, dir);
        if let Some(q) = nb {
            proof {
                let c1 = slide(c, p as int, q as int);
                assert(c1[q as int] == 0);
                assert(c[q as int] != 0) by {
                    if (q as int) < (p as int) {
                        assert(c[q as int] != c[p as int]);
                    } else {
                        assert(c[p as int] != c[q as int]);
                    }
                }
                assert(c1 != c);
            }
            if !relax_and_queue(table, frontier, parent, q, goal, heuristic, Ghost(skip)) {
                discarded = discarded + 1;
            }
            proof {
                let c1 = slide(c, p as int, q as int);
                assert(table.entries().remove(c1).contains_key(c));
                assert(before.entries().remove(c1)[c] == parent);
                if fresh {
                    crate::board::lemma_coords(n as nat, p as int);
                    let rr = row(n as nat, p as int);
                    assert(rr > 0 ==> rr * n >= n) by (nonlinear_arith)
                        requires
                            n >= 1,
                    ;
                    assert(rr * n >= 0) by (nonlinear_arith)
                        requires
                            rr >= 0,
                            n >= 1,
                    ;
                    assert(nb == Some(q));
                    if dir == 0 {
                        assert(q as int == p - 1);
                    } else if dir == 1 {
                        assert(q as int == p + 1);
                    } else if dir == 2 {
                        assert(p >= n);
                        assert(q as int == p - n);
                        assert(n >= 2);
                    } else {
                        assert(q as int == p + n);
                        assert(n >= 2);
                    }
                    assert(direction(n as nat, p as int, q as int) == dir);
                    assert forall|q2: int|
                        adjacent(n as nat, p as int, q2) && direction(n as nat, p as int, q2) >= dir + 1 implies !table.entries().contains_key(
                        #[trigger] slide(c, p as int, q2),
                    ) by {
                        let c2 = slide(c, p as int, q2);
                        assert(q2 != q as int);
                        assert(c2[q2] == 0);
                        assert(c1[q2] != 0) by {
                            assert(c1[q2] == c[q2]);
                            if q2 < p as int {
                                assert(c[q2] != c[p as int]);
                            } else {
                                assert(c[p as int] != c[q2]);
                            }
                        }
                        assert(c2 != c1);
                        assert(!before.entries().contains_key(c2));
                        assert(!before.entries().remove(c1).contains_key(c2));
                    }
                }
                assert forall|q2: int|
                    adjacent(n as nat, p as int, q2) && direction(n as nat, p as int, q2) < dir + 1 implies {
                        &&& table.best_costs().contains_key(#[trigger] slide(c, p as int, q2))
                        &&& table.best_costs()[slide(c, p as int, q2)] <= pn.g + 1
                    } by {
                    lemma_adjacent_is_neighbor(n as nat, p as int, q2);
                    if direction(n as nat, p as int, q2) < dir {
                        assert(before.best_costs().contains_key(slide(c, p as int, q2)));
                    } else {
                        assert(direction(n as nat, p as int, q2) == dir);
                        assert(nb == Some(q));
                        crate::board::lemma_coords(n as nat, p as int);
                        let rr = row(n as nat, p as int);
                        let cc = col(n as nat, p as int);
                        assert(rr > 0 ==> rr * n >= n) by (nonlinear_arith)
                            requires
                                n >= 1,
                        ;
                        assert(rr * n >= 0) by (nonlinear_arith)
                            requires
                                rr >= 0,
                                n >= 1,
                        ;
                        if dir == 0 {
                            assert(q2 == p - 1 && col(n as nat, p as int) > 0);
                            assert(p >= 1);
                            assert(nb == Some((p - 1) as usize));
                            assert(q as int == p - 1);
                        } else if dir == 1 {
                            assert(q2 == p + 1 && col(n as nat, p as int) < n - 1);
                            assert(nb == Some((p + 1) as usize));
                            assert(q as int == p + 1);
                        } else if dir == 2 {
                            assert(q2 == p - n && row(n as nat, p as int) > 0);
                            assert(p >= n);
                            assert(nb == Some((p - n) as usize));
                            assert(q as int == p - n);
                        } else {
                            assert(dir == 3);
                            assert(q2 == p + n && row(n as nat, p as int) < n - 1);
                            assert(nb == Some((p + n) as usize));
                            assert(q as int == p + n);
                        }
                        assert(q2 == q as int);
                    }
                }
            }
        } else {
            proof {
                assert forall|q2: int|
                    adjacent(n as nat, p as int, q2) && direction(n as nat, p as int, q2) < dir + 1 implies {
                        &&& table.best_costs().contains_key(#[trigger] slide(c, p as int, q2))
                        &&& table.best_costs()[slide(c, p as int, q2)] <= pn.g + 1
                    } by {
                    lemma_adjacent_is_neighbor(n as nat, p as int, q2);
                }
            }
        }
        dir = dir + 1;
    }
    proof {
        lemma_settle(*table, *frontier, c);
    }
    discarded
}

/// A move changes the grid.
proof fn lemma_move_changes(n: nat, a: Seq<usize>, b: Seq<usize>)
    requires
        valid_board(n, a),
        is_move(n, a, b),
    ensures
        a != b,
{
    let (p, q) = choose|p: int, q: int| a[p] == 0 && adjacent(n, p, q) && b == #[trigger] slide(a, p, q);
    assert(b[q] == 0);
    if q < p {
        assert(a[q] != a[p]);
    } else {
        assert(a[p] != a[q]);
    }
}

/// After the start, one move from the solved grid, has been expanded and nothing
/// else, the first frontier entry is the solved grid's node, reached by one move.
proof fn lemma_second_pop(table: VisitedTable, frontier: Frontier, h: Heuristic)
    requires
        1 <= table.spec_side() <= MAX_SIDE,
        table.wf(),
        frontier.wf(),
        estimates_cached(table, h),
        entries_match(table, frontier),
        covered(table, frontier, Set::empty()),
        forall|k: int| 0 <= k < frontier@.len() ==> (#[trigger] frontier@[k]).node != 0,
        table.entries().contains_key(table.start()),
        table.entries()[table.start()] == 0,
        is_move(table.spec_side(), table.start(), goal_cells(table.spec_side())),
    ensures
        frontier@.len() > 0,
        ({
            let e = frontier@.last();
            let nd = table.spec_nodes()[e.node as int];
            &&& e.node < table.spec_nodes().len()
            &&& nd.h == 0
            &&& nd.g == 1
            &&& nd.cells@ == goal_cells(table.spec_side())
            &&& table.entries()[nd.cells@] == e.node
        }),
{
    let n = table.spec_side();
    let g = goal_cells(n);
    reveal(covered);
    reveal(entries_match);
    reveal(estimates_cached);
    lemma_wf_start(table);
    lemma_wf_node(table, 0);
    assert(!queued(table, frontier, table.start()));
    assert(settled(table, table.start()));
    assert(table.best_costs().contains_key(g));
    lemma_wf_entry(table, g);
    let bg = table.entries()[g] as int;
    lemma_goal_estimate_zero(h, n);
    assert(table.spec_nodes()[bg].h == 0);
    assert(!settled(table, g));
    let k = choose|k: int| 0 <= k < frontier@.len() && (#[trigger] frontier@[k]).node == table.entries()[g];
    lemma_move_changes(n, table.start(), g);
    assert(bg != 0);
    lemma_wf_node(table, bg);
    let e = frontier@.last();
    if k < frontier@.len() - 1 {
        assert(key_lt(e, frontier@[k]));
    }
    assert(e.node != 0);
    lemma_wf_node(table, e.node as int);
    let nd = table.spec_nodes()[e.node as int];
    assert(nd.h == estimate(h, spiral_layout(n), n, nd.cells@));
    lemma_zero_estimate_is_goal(h, n, nd.cells@);
    if e.node as int != bg {
        if (e.node as int) < bg {
            lemma_wf_same_grid(table, e.node as int, bg);
        } else {
            lemma_wf_same_grid(table, bg, e.node as int);
        }
    }
}

/// A* search from `board` to the spiral goal, with the given heuristic, an
/// optional parity pre-check, and at most `budget` node expansions.
#[verifier::rlimit(50)]
pub fn solve(board: &Board, heuristic: Heuristic, check_parity: bool, budget: usize) -> (r: SolveReport)
    requires
        board.wf(),
    ensures
        (r.status == Status::Unsolvable) == rejected_by_parity(*board, check_parity),
        r.status == Status::Unsolvable ==> r.expanded == 0 && r.skipped == 0,
        r.status == Status::Unsolvable || r.status == Status::NoSolution ==> forall|path: Seq<Seq<usize>>|
            !(#[trigger] solves(board.spec_side(), board@, path)),
        r.status != Status::Solved ==> r.path@.len() == 0,
        r.status == Status::Solved ==> solves(board.spec_side(), board@, r.path@.map_values(|b: Board| b@)),
        r.status == Status::Solved ==> forall|i: int|
            0 <= i < r.path@.len() ==> (#[trigger] r.path@[i]).wf() && r.path@[i].spec_side() == board.spec_side(),
        heuristic == Heuristic::Manhattan && r.status == Status::Solved ==> forall|path: Seq<Seq<usize>>|
            #[trigger] solves(board.spec_side(), board@, path) ==> r.path@.len() <= path.len(),
        r.status == Status::BudgetExhausted ==> r.expanded == budget && budget < usize::MAX,
        r.status == Status::OutOfRoom ==> 4 * r.expanded + 5 > usize::MAX,
        r.expanded <= budget,
        !rejected_by_parity(*board, check_parity) && board@ == goal_cells(board.spec_side()) ==> r.status
            == Status::Solved && r.path@.len() == 1 && r.expanded == 0 && r.skipped == 0,
        is_move(board.spec_side(), board@, goal_cells(board.spec_side())) && budget >= 1 ==> r.status
            == Status::Solved && r.path@.len() == 2 && r.expanded == 1 && r.skipped == 0,
{
    let n = board.side();
    let ghost one_move = is_move(n as nat, board@, goal_cells(n as nat));
    let goal = build_spiral(n);
    let blank = find_empty(board);
    proof {
        let p = choose|p: int| blank_at(board@, p);
        assert(blank_at(board@, p));
        assert(p == blank) by {
            if p != blank {
                assert(board@[p] == board@[blank as int]);
            }
        }
    }
    if check_parity && !parity_allows(board, &goal, blank) {
        proof {
            assert forall|path: Seq<Seq<usize>>| !(#[trigger] solves(n as nat, board@, path)) by {
                if solves(n as nat, board@, path) {
                    lemma_parity_necessary(n as nat, path, blank as int);
                }
            }
            if one_move {
                let sol = seq![board@, goal_cells(n as nat)];
                assert(solves(n as nat, board@, sol));
            }
        }
        return SolveReport { status: Status::Unsolvable, path: Vec::new(), expanded: 0, skipped: 0, max_states: 0 };
    }
    let h0 = compute_distance(board, &goal, heuristic);
    let mut table = VisitedTable::new(board, h0);
    let mut frontier = Frontier::new();
    frontier.push(h0 as u128, h0, 0);
    let mut expanded: usize = 0;
    let mut skipped: usize = 0;
    let mut max_states: usize = 0;
    let mut status = Status::NoSolution;
    let mut path: Vec<Board> = Vec::new();
    let ghost mut first = true;
    let ghost mut second = false;
    proof {
        reveal(estimates_cached);
        reveal(entries_match);
        reveal(covered);
        lemma_wf_start(table);
        assert(frontier@[0].node == 0);
        assert forall|c: Seq<usize>|
            #[trigger] table.entries().contains_key(c) && !Set::<Seq<usize>>::empty().contains(c) implies queued(
            table,
            frontier,
            c,
        ) || settled(table, c) by {
            assert(frontier@[0].node == table.entries()[c]);
        }
    }
    loop
        invariant_except_break
            status == Status::NoSolution,
            path@.len() == 0,
            first ==> expanded == 0 && skipped == 0 && frontier@.len() == 1 && frontier@[0].node == 0
                && table.spec_nodes().len() == 1 && table.entries() == map![board@ => 0usize],
            frontier.wf(),
            frontier.spec_next_seq() == table.spec_nodes().len(),
            estimates_cached(table, heuristic),
            entries_match(table, frontier),
            covered(table, frontier, Set::empty()),
            expanded + frontier@.len() <= table.spec_nodes().len(),
            table.spec_nodes().len() <= 1 + 4 * expanded,
            second ==> expanded == 1 && skipped == 0 && table.entries().contains_key(board@)
                && table.entries()[board@] == 0 && forall|k: int|
                0 <= k < frontier@.len() ==> (#[trigger] frontier@[k]).node != 0,
            one_move && budget >= 1 ==> first || second,
            second ==> one_move,
        invariant
            one_move == is_move(n as nat, board@, goal_cells(n as nat)),
            board.wf(),
            n == board.spec_side(),
            goal@ == spiral_layout(n as nat),
            layout_fits(n as nat, goal@),
            table.wf(),
            table.spec_side() == n,
            table.start() == board@,
            expanded <= budget,
            board@ == goal_cells(n as nat) ==> first,
        ensures
            expanded <= budget,
            status != Status::Solved ==> path@.len() == 0,
            status == Status::BudgetExhausted ==> expanded == budget && budget < usize::MAX,
            status == Status::OutOfRoom ==> 4 * expanded + 5 > usize::MAX,
            status == Status::NoSolution ==> forall|sol: Seq<Seq<usize>>| !(#[trigger] solves(n as nat, board@, sol)),
            status != Status::Unsolvable,
            status == Status::Solved ==> {
                &&& path@.len() >= 1
                &&& path@[0]@ == board@
                &&& path@.last()@ == goal_cells(n as nat)
                &&& forall|i: int|
                    0 <= i < path@.len() ==> (#[trigger] path@[i]).wf() && path@[i].spec_side() == n
                &&& forall|i: int|
                    0 <= i < path@.len() - 1 ==> is_move(n as nat, #[trigger] path@[i]@, path@[i + 1]@)
            },
            heuristic == Heuristic::Manhattan && status == Status::Solved ==> forall|sol: Seq<Seq<usize>>|
                #[trigger] solves(n as nat, board@, sol) ==> path@.len() <= sol.len(),
            first && board@ == goal_cells(n as nat) ==> status == Status::Solved && path@.len() == 1
                && expanded == 0 && skipped == 0,
            one_move && budget >= 1 ==> status == Status::Solved && path@.len() == 2 && expanded == 1
                && skipped == 0,
        decreases budget - expanded, frontier@.len(),
    {
        let ghost fr_before = frontier;
        proof {
            lemma_frontier_bound(table, frontier, heuristic);
            if second {
                lemma_second_pop(table, frontier, heuristic);
            }
            if first && one_move {
                lemma_wf_start(table);
                lemma_move_changes(n as nat, board@, goal_cells(n as nat));
            }
        }
        let entry = match frontier.pop() {
            Some(e) => e,
            None => {
                break;
            },
        };
        proof {
            reveal(entries_match);
            assert(fr_before@[fr_before@.len() - 1] == entry);
            assert(entry.node < table.spec_nodes().len());
            lemma_after_pop(table, fr_before, frontier);
        }
        let node = table.node(entry.node);
        let best = match table.lookup(&node.cells) {
            Some(i) => i,
            None => entry.node,
        };
        proof {
            lemma_wf_node(table, entry.node as int);
            if first && board@ == goal_cells(n as nat) {
                reveal(estimates_cached);
                lemma_goal_estimate_zero(heuristic, n as nat);
                assert(entry.node == 0);
                assert(node.cells@ == goal_cells(n as nat));
                assert(node.h == 0);
            }
            if first && one_move {
                reveal(estimates_cached);
                assert(entry.node == 0);
                assert(node.cells@ == board@);
                if node.h == 0 {
                    lemma_zero_estimate_is_goal(heuristic, n as nat, node.cells@);
                }
                assert(node.h != 0);
            }
        }
        if table.node(best).g < node.g {
            skipped = skipped.saturating_add(1);
            proof {
                first = false;
            }
            continue;
        }
        proof {
            let c = node.cells@;
            lemma_wf_entry(table, c);
            if best != entry.node {
                if (best as int) < (entry.node as int) {
                    lemma_wf_same_grid(table, best as int, entry.node as int);
                } else {
                    lemma_wf_same_grid(table, entry.node as int, best as int);
                }
            }
        }
        // Only the solved grid has a zero estimate.
        if node.h == 0 {
            proof {
                reveal(estimates_cached);
                lemma_zero_estimate_is_goal(heuristic, n as nat, node.cells@);
            }
            status = Status::Solved;
            path = table.reconstruct(&node.cells);
            break;
        }
        let count = table.node_count();
        if expanded == budget {
            status = Status::BudgetExhausted;
            break;
        }
        if count > usize::MAX - 4 {
            status = Status::OutOfRoom;
            break;
        }
        proof {
            if first && one_move {
                assert forall|q: int| adjacent(n as nat, node.blank as int, q) implies !table.entries().contains_key(
                    #[trigger] slide(node.cells@, node.blank as int, q),
                ) by {
                    lemma_wf_node(table, 0);
                    lemma_slide_valid(n as nat, node.cells@, node.blank as int, q);
                    lemma_move_changes(n as nat, node.cells@, slide(node.cells@, node.blank as int, q));
                }
            }
        }
        let ghost fr_mid = frontier@;
        let discarded = expand(&mut table, &mut frontier, entry.node, &goal, heuristic);
        skipped = skipped.saturating_add(discarded);
        expanded = expanded + 1;
        if frontier.len() > max_states {
            max_states = frontier.len();
        }
        proof {
            second = first && one_move;
            first = false;
        }
    }
    proof {
        let views = path@.map_values(|b: Board| b@);
        if status == Status::Solved {
            assert forall|i: int| 0 <= i < views.len() - 1 implies is_move(n as nat, #[trigger] views[i], views[i + 1]) by {
                assert(is_move(n as nat, path@[i]@, path@[i + 1]@));
            }
        }
    }
    SolveReport { status, path, expanded, skipped, max_states }
}

/// Reads a puzzle file and, if it is valid, solves it.
pub fn n_puzzle(bytes: &[u8], heuristic: Heuristic, check_parity: bool, budget: usize) -> (r: Result<
    SolveReport,
    ParseError,
>)
    ensures
        r is Ok <==> puzzle_spec(bytes@) is Some,
        r matches Ok(rep) ==> {
            let (n, cells) = puzzle_spec(bytes@)->Some_0;
            &&& (rep.status == Status::Unsolvable) == rejected_by_parity_cells(n, cells, check_parity)
            &&& rep.status == Status::Unsolvable ==> rep.expanded == 0 && rep.skipped == 0
            &&& rep.status == Status::Unsolvable || rep.status == Status::NoSolution ==> forall|path: Seq<Seq<usize>>|
                !(#[trigger] solves(n, cells, path))
            &&& rep.status != Status::Solved ==> rep.path@.len() == 0
            &&& rep.status == Status::Solved ==> solves(n, cells, rep.path@.map_values(|b: Board| b@))
            &&& heuristic == Heuristic::Manhattan && rep.status == Status::Solved ==> forall|path: Seq<Seq<usize>>|
                #[trigger] solves(n, cells, path) ==> rep.path@.len() <= path.len()
            &&& rep.status == Status::BudgetExhausted ==> rep.expanded == budget && budget < usize::MAX
            &&& rep.status == Status::OutOfRoom ==> 4 * rep.expanded + 5 > usize::MAX
            &&& rep.expanded <= budget
            &&& !rejected_by_parity_cells(n, cells, check_parity) && cells == goal_cells(n) ==> rep.status
                == Status::Solved && rep.path@.len() == 1 && rep.expanded == 0 && rep.skipped == 0
            &&& is_move(n, cells, goal_cells(n)) && budget >= 1 ==> rep.status == Status::Solved && rep.path@.len()
                == 2 && rep.expanded == 1 && rep.skipped == 0
        },
{
    match parse_puzzle(bytes) {
        Ok(board) => Ok(solve(&board, heuristic, check_parity, budget)),
        Err(e) => Err(e),
    }
}

} // verus!

use std::collections::{HashMap, VecDeque};

use n_puzzle::board::{find_empty, neighbor, slide_cells, Board, BoardError};
use n_puzzle::frontier::Frontier;
use n_puzzle::goal::{build_spiral, goal_board, spiral_tile};
use n_puzzle::heuristic::{abs_diff, compute_distance, euclidean, manhattan, out_of_place, Heuristic};
use n_puzzle::parity::parity_allows;
use n_puzzle::parse::{lex, parse_puzzle, ParseError};
use n_puzzle::search::{n_puzzle, solve, SolveReport, Status};
use n_puzzle::visited::VisitedTable;

const HEURISTICS: [Heuristic; 3] = [Heuristic::Manhattan, Heuristic::OutOfPlace, Heuristic::Euclidean];

fn board(rows: Vec<Vec<usize>>) -> Board {
    Board::from_rows(&rows).unwrap()
}

fn run(rows: Vec<Vec<usize>>, h: Heuristic, check_parity: bool) -> SolveReport {
    solve(&board(rows), h, check_parity, usize::MAX)
}

/// Shortest number of moves to the spiral goal, by breadth-first search.
fn bfs_moves(b: &Board) -> Option<usize> {
    let n = b.side();
    let target = goal_board(n).cells().clone();
    let mut dist: HashMap<Vec<usize>, usize> = HashMap::new();
    let mut queue = VecDeque::new();
    dist.insert(b.cells().clone(), 0);
    queue.push_back(b.cells().clone());
    while let Some(cur) = queue.pop_front() {
        let d = dist[&cur];
        if cur == target {
            return Some(d);
        }
        let p = cur.iter().position(|&v| v == 0).unwrap();
        for dir in 0..4 {
            if let Some(q) = neighbor(n, p, dir) {
                let next = slide_cells(&cur, p, q);
                if !dist.contains_key(&next) {
                    dist.insert(next.clone(), d + 1);
                    queue.push_back(next);
                }
            }
        }
    }
    None
}

fn check_path(b: &Board, r: &SolveReport) {
    let n = b.side();
    assert_eq!(r.path[0].cells(), b.cells());
    assert_eq!(r.path.last().unwrap().cells(), goal_board(n).cells());
    for w in r.path.windows(2) {
        let a = w[0].cells();
        let c = w[1].cells();
        let diff: Vec<usize> = (0..a.len()).filter(|&i| a[i] != c[i]).collect();
        assert_eq!(diff.len(), 2);
    }
}

#[test]
fn spiral_layouts_match_known_grids() {
    let expected: Vec<Vec<Vec<usize>>> = vec![
        vec![vec![0]],
        vec![vec![1, 2], vec![0, 3]],
        vec![vec![1, 2, 3], vec![8, 0, 4], vec![7, 6, 5]],
        vec![vec![1, 2, 3, 4], vec![12, 13, 14, 5], vec![11, 0, 15, 6], vec![10, 9, 8, 7]],
        vec![
            vec![1, 2, 3, 4, 5],
            vec![16, 17, 18, 19, 6],
            vec![15, 24, 0, 20, 7],
            vec![14, 23, 22, 21, 8],
            vec![13, 12, 11, 10, 9],
        ],
    ];
    for (i, rows) in expected.into_iter().enumerate() {
        let n = i + 1;
        assert_eq!(goal_board(n).rows(), rows);
        let goal = build_spiral(n);
        for (y, row) in rows.iter().enumerate() {
            for (x, &v) in row.iter().enumerate() {
                assert_eq!(goal[v], (x, y));
                assert_eq!(spiral_tile(n, x, y), v);
            }
        }
    }
}

#[test]
fn spiral_is_a_bijection_with_center_blank() {
    for n in 1..=9usize {
        let goal = build_spiral(n);
        assert_eq!(goal.len(), n * n);
        let mut seen = vec![false; n * n];
        for &(x, y) in &goal {
            assert!(x < n && y < n);
            assert!(!seen[y * n + x]);
            seen[y * n + x] = true;
        }
        let cx = if n % 2 == 0 { n / 2 - 1 } else { n / 2 };
        assert_eq!(goal[0], (cx, n / 2));
    }
}

#[test]
fn goal_estimates_zero_for_every_heuristic() {
    for n in 1..=7usize {
        let goal = build_spiral(n);
        let g = goal_board(n);
        for h in HEURISTICS {
            assert_eq!(compute_distance(&g, &goal, h), 0);
        }
    }
}

#[test]
fn distance_formulas() {
    assert_eq!(abs_diff(3, 7), 4);
    assert_eq!(abs_diff(7, 3), 4);
    assert_eq!(manhattan((0, 0), (2, 3)), 5);
    assert_eq!(euclidean((0, 0), (2, 3)), 13);
    assert_eq!(euclidean((4, 1), (1, 3)), 13);
    assert_eq!(out_of_place((1, 1), (1, 1)), 0);
    assert_eq!(out_of_place((1, 1), (1, 2)), 4);
}

#[test]
fn estimate_of_scrambled_grid() {
    // 1 and 2 trade places on the 3x3 goal; the blank is not counted.
    let b = board(vec![vec![2, 1, 3], vec![8, 0, 4], vec![7, 6, 5]]);
    let goal = build_spiral(3);
    assert_eq!(compute_distance(&b, &goal, Heuristic::Manhattan), 2);
    assert_eq!(compute_distance(&b, &goal, Heuristic::OutOfPlace), 8);
    assert_eq!(compute_distance(&b, &goal, Heuristic::Euclidean), 2);
    let far = board(vec![vec![5, 2, 3], vec![8, 0, 4], vec![7, 6, 1]]);
    assert_eq!(compute_distance(&far, &goal, Heuristic::Euclidean), 16);
    assert_eq!(compute_distance(&far, &goal, Heuristic::Manhattan), 8);
}

#[test]
fn manhattan_changes_by_one_per_move() {
    let grids = vec![
        vec![vec![1, 2, 3], vec![8, 0, 4], vec![7, 6, 5]],
        vec![vec![4, 1, 3], vec![8, 2, 0], vec![7, 6, 5]],
        vec![vec![0, 1, 2, 3], vec![4, 5, 6, 7], vec![8, 9, 10, 11], vec![12, 13, 14, 15]],
    ];
    for rows in grids {
        let b = board(rows);
        let n = b.side();
        let goal = build_spiral(n);
        let before = compute_distance(&b, &goal, Heuristic::Manhattan) as i64;
        let p = find_empty(&b);
        for dir in 0..4 {
            if let Some(q) = neighbor(n, p, dir) {
                let moved = Board::from_cells(n, slide_cells(b.cells(), p, q)).unwrap();
                let after = compute_distance(&moved, &goal, Heuristic::Manhattan) as i64;
                assert_eq!((after - before).abs(), 1);
            }
        }
    }
}

#[test]
fn scenario_two_by_two() {
    let rows = vec![vec![1, 2], vec![0, 3]];
    let b = board(rows.clone());
    let expected = bfs_moves(&b).unwrap();
    assert!(expected <= 2);
    for h in HEURISTICS {
        let r = run(rows.clone(), h, true);
        assert_eq!(r.status, Status::Solved);
        assert_eq!(r.moves(), expected);
        check_path(&b, &r);
    }
}

#[test]
fn scenario_one_move_from_goal() {
    let rows = vec![vec![1, 0, 3], vec![8, 2, 4], vec![7, 6, 5]];
    for h in HEURISTICS {
        let r = run(rows.clone(), h, true);
        assert_eq!(r.status, Status::Solved);
        assert_eq!(r.moves(), 1);
        assert_eq!(r.expanded, 1);
        assert_eq!(r.skipped, 0);
        check_path(&board(rows.clone()), &r);
    }
}

#[test]
fn scenario_parity_rejection() {
    let rows = vec![vec![2, 1, 3], vec![8, 0, 4], vec![7, 6, 5]];
    let b = board(rows.clone());
    assert!(!parity_allows(&b, &build_spiral(3), find_empty(&b)));
    let r = run(rows.clone(), Heuristic::Manhattan, true);
    assert_eq!(r.status, Status::Unsolvable);
    assert_eq!(r.expanded, 0);
    assert_eq!(r.skipped, 0);
    assert!(r.path.is_empty());
    assert_eq!(bfs_moves(&b), None);
}

#[test]
fn unsolvable_two_by_two_exhausts_without_parity_check() {
    let rows = vec![vec![2, 1], vec![0, 3]];
    let r = run(rows, Heuristic::Manhattan, false);
    assert_eq!(r.status, Status::NoSolution);
    assert!(r.path.is_empty());
    assert!(r.expanded <= 12);
}

#[test]
fn budget_stops_search() {
    let rows = vec![vec![8, 1, 3], vec![7, 0, 2], vec![6, 5, 4]];
    let r = solve(&board(rows), Heuristic::OutOfPlace, true, 2);
    assert_eq!(r.status, Status::BudgetExhausted);
    assert_eq!(r.expanded, 2);
    assert!(r.path.is_empty());
}

#[test]
fn optimal_on_every_two_by_two() {
    let mut perm = vec![0usize, 1, 2, 3];
    let mut all = Vec::new();
    permutations(&mut perm, 0, &mut all);
    assert_eq!(all.len(), 24);
    for cells in all {
        let b = Board::from_cells(2, cells).unwrap();
        let truth = bfs_moves(&b);
        let r = solve(&b, Heuristic::Manhattan, true, usize::MAX);
        match truth {
            Some(m) => {
                assert_eq!(r.status, Status::Solved);
                assert_eq!(r.moves(), m);
                check_path(&b, &r);
            }
            None => assert_eq!(r.status, Status::Unsolvable),
        }
    }
}

fn permutations(v: &mut Vec<usize>, k: usize, out: &mut Vec<Vec<usize>>) {
    if k == v.len() {
        out.push(v.clone());
        return;
    }
    for i in k..v.len() {
        v.swap(k, i);
        permutations(v, k + 1, out);
        v.swap(k, i);
    }
}

/// Grids reached from the 3x3 goal by a fixed pseudo-random walk.
fn scrambles() -> Vec<Board> {
    let mut out = Vec::new();
    let mut seed: u64 = 12345;
    for steps in [3usize, 8, 15, 25, 40, 60] {
        let g = goal_board(3);
        let mut cells = g.cells().clone();
        for _ in 0..steps {
            seed = seed.wrapping_mul(6364136223846793005).wrapping_add(1442695040888963407);
            let p = cells.iter().position(|&v| v == 0).unwrap();
            let dir = ((seed >> 33) % 4) as usize;
            if let Some(q) = neighbor(3, p, dir) {
                cells = slide_cells(&cells, p, q);
            }
        }
        out.push(Board::from_cells(3, cells).unwrap());
    }
    out
}

#[test]
fn optimal_on_three_by_three_scrambles() {
    for b in scrambles() {
        let truth = bfs_moves(&b).unwrap();
        let r = solve(&b, Heuristic::Manhattan, true, usize::MAX);
        assert_eq!(r.status, Status::Solved);
        assert_eq!(r.moves(), truth);
        check_path(&b, &r);
    }
}

#[test]
fn inadmissible_heuristics_still_reach_goal() {
    for b in scrambles() {
        for h in [Heuristic::OutOfPlace, Heuristic::Euclidean] {
            let r = solve(&b, h, true, usize::MAX);
            assert_eq!(r.status, Status::Solved);
            check_path(&b, &r);
        }
    }
}

#[test]
fn runs_are_deterministic() {
    for b in scrambles() {
        for h in HEURISTICS {
            let a = solve(&b, h, true, usize::MAX);
            let c = solve(&b, h, true, usize::MAX);
            assert_eq!(a.status, c.status);
            assert_eq!(a.moves(), c.moves());
            assert_eq!(a.expanded, c.expanded);
            assert_eq!(a.skipped, c.skipped);
            assert_eq!(a.max_states, c.max_states);
            let pa: Vec<Vec<usize>> = a.path.iter().map(|x| x.cells().clone()).collect();
            let pc: Vec<Vec<usize>> = c.path.iter().map(|x| x.cells().clone()).collect();
            assert_eq!(pa, pc);
        }
    }
}

#[test]
fn solved_start_needs_no_expansion() {
    let r = run(vec![vec![1, 2, 3], vec![8, 0, 4], vec![7, 6, 5]], Heuristic::Euclidean, true);
    assert_eq!(r.status, Status::Solved);
    assert_eq!(r.moves(), 0);
    assert_eq!(r.expanded, 0);
    let one = run(vec![vec![0]], Heuristic::Manhattan, true);
    assert_eq!(one.status, Status::Solved);
    assert_eq!(one.moves(), 0);
}

#[test]
fn board_errors() {
    assert_eq!(Board::from_rows(&vec![]).err(), Some(BoardError::Empty));
    assert_eq!(Board::from_rows(&vec![vec![0, 1], vec![2]]).err(), Some(BoardError::NotSquare));
    assert_eq!(Board::from_rows(&vec![vec![0, 1], vec![2, 4]]).err(), Some(BoardError::OutOfRange));
    assert_eq!(Board::from_rows(&vec![vec![0, 1], vec![1, 3]]).err(), Some(BoardError::Duplicate));
    assert_eq!(Board::from_cells(0, vec![]).err(), Some(BoardError::Empty));
    assert_eq!(Board::from_cells(40000, vec![]).err(), Some(BoardError::TooLarge));
    assert_eq!(Board::from_cells(2, vec![0, 1, 2]).err(), Some(BoardError::NotSquare));
    let b = Board::from_rows(&vec![vec![3, 1], vec![0, 2]]).unwrap();
    assert_eq!(b.cells(), &vec![3, 1, 0, 2]);
    assert_eq!(b.rows(), vec![vec![3, 1], vec![0, 2]]);
    assert_eq!(find_empty(&b), 2);
}

#[test]
fn visited_table_keeps_cheapest_cost() {
    let start = board(vec![vec![1, 2, 3], vec![8, 4, 0], vec![7, 6, 5]]);
    let mut t = VisitedTable::new(&start, 1);
    assert_eq!(t.lookup(start.cells()), Some(0));
    let p = find_empty(&start);
    let q = neighbor(3, p, 0).unwrap();
    let child = slide_cells(start.cells(), p, q);
    assert_eq!(t.lookup(&child), None);
    assert_eq!(t.relax(0, child.clone(), q, 0), Some(1));
    assert_eq!(t.lookup(&child), Some(1));
    assert_eq!(t.node(1).g, 1);
    // Moving back reaches the start again at cost 2: worse than 0, so discarded.
    let back = slide_cells(&child, q, p);
    assert_eq!(t.relax(1, back.clone(), p, 1), None);
    assert_eq!(t.lookup(&back), Some(0));
    assert_eq!(t.node(0).g, 0);
    // Offering the child again at the same cost is discarded too.
    assert_eq!(t.relax(0, child.clone(), q, 0), None);
    assert_eq!(t.node_count(), 2);
    let path = t.reconstruct(&child);
    assert_eq!(path.len(), 2);
    assert_eq!(path[0].cells(), start.cells());
    assert_eq!(path[1].cells(), &child);
}

#[test]
fn frontier_pops_by_f_then_h_then_order() {
    let mut f = Frontier::new();
    f.push(5, 2, 10);
    f.push(3, 3, 11);
    f.push(3, 1, 12);
    f.push(3, 1, 13);
    f.push(7, 0, 14);
    assert_eq!(f.len(), 5);
    let order: Vec<usize> = (0..5).map(|_| f.pop().unwrap().node).collect();
    assert_eq!(order, vec![12, 13, 11, 10, 14]);
    assert!(f.pop().is_none());
    assert!(f.is_empty());
}

#[test]
fn parses_puzzle_files() {
    let text = b"# a comment\n3\n1 0 3 # trailing\n\n8 2 4\r\n7\t6 5\n";
    let b = parse_puzzle(text).unwrap();
    assert_eq!(b.side(), 3);
    assert_eq!(b.cells(), &vec![1, 0, 3, 8, 2, 4, 7, 6, 5]);
    assert_eq!(lex(b"1 2#x\n\n 3"), Some(vec![vec![1, 2], vec![3]]));
    assert_eq!(parse_puzzle(b"2\n1 2\n0 x\n").err(), Some(ParseError::InvalidToken));
    assert_eq!(parse_puzzle(b"99999999999999999999999\n").err(), Some(ParseError::InvalidToken));
    assert_eq!(parse_puzzle(b"# nothing\n").err(), Some(ParseError::MissingSize));
    assert_eq!(parse_puzzle(b"2 2\n1 2\n0 3\n").err(), Some(ParseError::BadSizeLine));
    assert_eq!(parse_puzzle(b"3\n1 2\n0 3\n").err(), Some(ParseError::WrongRowCount));
    assert_eq!(parse_puzzle(b"2\n1 2\n0 5\n").err(), Some(ParseError::Board(BoardError::OutOfRange)));
    assert_eq!(parse_puzzle(b"2\n1 2\n2 0\n").err(), Some(ParseError::Board(BoardError::Duplicate)));
    assert_eq!(parse_puzzle(b"2\n1 2 3\n0 3\n").err(), Some(ParseError::Board(BoardError::NotSquare)));
}

#[test]
fn n_puzzle_parses_then_solves() {
    let r = n_puzzle(b"3\n1 0 3\n8 2 4\n7 6 5\n", Heuristic::Manhattan, true, usize::MAX).unwrap();
    assert_eq!(r.status, Status::Solved);
    assert_eq!(r.moves(), 1);
    assert!(n_puzzle(b"3\n1 0 3\n", Heuristic::Manhattan, true, usize::MAX).is_err());
}

#[test]
fn one_move_with_blank_on_right_edge() {
    let rows = vec![vec![1, 2, 3], vec![8, 4, 0], vec![7, 6, 5]];
    for h in HEURISTICS {
        let r = run(rows.clone(), h, true);
        assert_eq!(r.status, Status::Solved);
        assert_eq!(r.path.len(), 2);
        assert_eq!(r.path[1].rows(), vec![vec![1, 2, 3], vec![8, 0, 4], vec![7, 6, 5]]);
        assert_eq!(r.expanded, 1);
        assert_eq!(r.skipped, 0);
    }
}

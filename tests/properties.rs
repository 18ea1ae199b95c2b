use suko::bits::{all_candidates, bitcount, first_bit};
use suko::board::Board;
use suko::error::SudokuError;
use suko::grid::peers_of;
use suko::maze::Maze;
use suko::puzzle::{count_solutions, find_next_mrv, PuzzleGenerator};
use suko::session::{board_to_sdk, format_session_markdown, normalize_puzzle_text, SessionLog};
use suko::solver::SolveEvent;
use suko::stepwise::{BacktracingBruteSolver, BacktrackingSolver, LogicalSolver, Solver as StepSolver, Step, StepKind};
use suko::strategies::{box_line_reduction, hidden_single, naked_pair, naked_single, pointing_pair_triple, x_wing};
use suko::{Grid, Pos, SolveMode, Solver};

const EASY: &str = "53..7....6..195....98....6.8...6...34..8.3..17...2...6.6....28....419..5....8..79";
const EASY_SOLUTION: &str = "534678912672195348198342567859761423426853791713924856961537284287419635345286179";
const HARD: &str = "8..........36......7..9.2...5...7.......457.....1...3...1....68..85...1..9....4..";

fn digits(s: &str) -> Vec<u8> {
    s.chars().map(|c| if c == '.' { 0 } else { c as u8 - b'0' }).collect()
}

fn is_peer(i: usize, j: usize) -> bool {
    i != j && (i / 9 == j / 9 || i % 9 == j % 9 || (i / 27 == j / 27 && (i % 9) / 3 == (j % 9) / 3))
}

fn grid_valid(cells: &[u8]) -> bool {
    (0..81).all(|i| (0..81).all(|j| !is_peer(i, j) || cells[i] == 0 || cells[i] != cells[j]))
}

#[test]
fn compact_round_trip() {
    let g = Grid::from_compact(EASY).unwrap();
    assert_eq!(g.to_compact(), EASY);
}

#[test]
fn compact_writes_blanks_as_dots() {
    let s = EASY.replace('.', "0");
    let g = Grid::from_compact(&s).unwrap();
    assert_eq!(g.to_compact(), EASY);
}

#[test]
fn recomputed_candidates_are_exact() {
    let mut g = Grid::from_compact(EASY).unwrap();
    g.infer_all_candidates().unwrap();
    let cells = digits(EASY);
    for i in 0..81 {
        let p = Pos { r: i / 9, c: i % 9 };
        if cells[i] != 0 {
            assert_eq!(g.candidates(p), 0);
        } else {
            let mut expect: u16 = 0b11_1111_1110;
            for j in 0..81 {
                if is_peer(i, j) && cells[j] != 0 {
                    expect &= !(1u16 << cells[j]);
                }
            }
            assert_eq!(g.candidates(p), expect, "cell {}", i);
        }
    }
    assert_eq!(g.candidates(Pos { r: 0, c: 2 }), (1 << 1) | (1 << 2) | (1 << 4));
}

#[test]
fn place_never_grows_candidates() {
    let mut g = Grid::from_compact(EASY).unwrap();
    let before: Vec<u32> = (0..81).map(|i| g.candidates(Pos { r: i / 9, c: i % 9 }).count_ones()).collect();
    g.set(Pos { r: 0, c: 2 }, 4).unwrap();
    for i in 0..81 {
        let after = g.candidates(Pos { r: i / 9, c: i % 9 }).count_ones();
        assert!(after <= before[i]);
    }
    assert_eq!(g.get(Pos { r: 0, c: 2 }), 4);
    assert_eq!(g.candidates(Pos { r: 0, c: 2 }), 0);
    assert_eq!(g.candidates(Pos { r: 0, c: 3 }) & (1 << 4), 0);
}

#[test]
fn hybrid_matches_search() {
    let mut a = Grid::from_compact(EASY).unwrap();
    let mut b = Grid::from_compact(EASY).unwrap();
    let mut trace: Vec<SolveEvent> = Vec::new();
    Solver::new(SolveMode::Hybrid).solve(&mut a, &mut trace).unwrap();
    Solver::new(SolveMode::SearchOnly).solve(&mut b, &mut trace).unwrap();
    assert_eq!(a.to_compact(), b.to_compact());
    assert_eq!(a.to_compact(), EASY_SOLUTION);
}

#[test]
fn hybrid_matches_search_on_hard_puzzle() {
    let mut a = Grid::from_compact(HARD).unwrap();
    let mut b = Grid::from_compact(HARD).unwrap();
    let mut trace: Vec<SolveEvent> = Vec::new();
    Solver::new(SolveMode::Hybrid).solve(&mut a, &mut trace).unwrap();
    Solver::new(SolveMode::SearchOnly).solve(&mut b, &mut trace).unwrap();
    assert!(a.is_solved());
    assert_eq!(a.to_compact(), b.to_compact());
}

#[test]
fn strategies_keep_the_solution() {
    let sol = digits(EASY_SOLUTION);
    let mut g = Grid::from_compact(EASY).unwrap();
    let check = |g: &Grid| {
        for i in 0..81 {
            let p = Pos { r: i / 9, c: i % 9 };
            if g.get(p) == 0 {
                assert!(g.candidates(p) & (1 << sol[i]) != 0, "solution digit lost at {}", i);
            } else {
                assert_eq!(g.get(p), sol[i]);
            }
        }
    };
    let mut applied = 0;
    loop {
        check(&g);
        if naked_single(&mut g).unwrap().is_some() { applied += 1; continue; }
        if hidden_single(&mut g).unwrap().is_some() { applied += 1; continue; }
        if naked_pair(&mut g).is_some() { applied += 1; continue; }
        if pointing_pair_triple(&mut g).is_some() { applied += 1; continue; }
        if box_line_reduction(&mut g).is_some() { applied += 1; continue; }
        if x_wing(&mut g).is_some() { applied += 1; continue; }
        break;
    }
    check(&g);
    assert!(applied > 0);
    assert_eq!(g.to_compact(), EASY_SOLUTION);
}

#[test]
fn elimination_rules_keep_hard_solution() {
    let mut s = Grid::from_compact(HARD).unwrap();
    let mut trace: Vec<SolveEvent> = Vec::new();
    Solver::new(SolveMode::SearchOnly).solve(&mut s, &mut trace).unwrap();
    let sol = digits(&s.to_compact());
    let mut g = Grid::from_compact(HARD).unwrap();
    for _ in 0..200 {
        let any = naked_single(&mut g).unwrap().is_some()
            || hidden_single(&mut g).unwrap().is_some()
            || naked_pair(&mut g).is_some()
            || pointing_pair_triple(&mut g).is_some()
            || box_line_reduction(&mut g).is_some()
            || x_wing(&mut g).is_some();
        for i in 0..81 {
            let p = Pos { r: i / 9, c: i % 9 };
            if g.get(p) == 0 {
                assert!(g.candidates(p) & (1 << sol[i]) != 0);
            }
        }
        if !any {
            break;
        }
    }
}

#[test]
fn generated_puzzle_is_unique() {
    let mut gen = PuzzleGenerator::new(Some(7));
    let mut b = gen.generate_puzzle(30);
    let clues = (0..81).filter(|&i| b.cells[i / 9][i % 9].value != 0).count();
    assert!(clues >= 30 && clues <= 81);
    assert_eq!(count_solutions(&mut b, 2), 1);
    for r in 0..9 {
        for c in 0..9 {
            assert_eq!(b.cells[r][c].fixed, b.cells[r][c].value != 0);
        }
    }
}

#[test]
fn seeds_give_different_grids() {
    let a = PuzzleGenerator::new(Some(1)).generate_full_grid();
    let b = PuzzleGenerator::new(Some(2)).generate_full_grid();
    let a2 = PuzzleGenerator::new(Some(1)).generate_full_grid();
    assert!(a.is_solved() && b.is_solved());
    assert_ne!(board_to_sdk(&a), board_to_sdk(&b));
    assert_eq!(board_to_sdk(&a), board_to_sdk(&a2));
}

#[test]
fn hybrid_solves_scenario() {
    let mut g = Grid::from_compact(EASY).unwrap();
    let mut trace: Vec<SolveEvent> = Vec::new();
    Solver::new(SolveMode::Hybrid).solve(&mut g, &mut trace).unwrap();
    assert!(g.is_solved());
    assert!(grid_valid(&digits(&g.to_compact())));
    assert!(!trace.is_empty());
}

#[test]
fn place_non_candidate_is_rejected() {
    let mut g = Grid::from_compact(EASY).unwrap();
    let p = Pos { r: 0, c: 2 };
    assert_eq!(g.candidates(p) & (1 << 5), 0);
    let before = g.to_compact();
    let cands_before = g.candidates(Pos { r: 0, c: 3 });
    assert_eq!(g.set(p, 5), Err(SudokuError::InvalidPlacement));
    assert_eq!(g.to_compact(), before);
    assert_eq!(g.candidates(Pos { r: 0, c: 3 }), cands_before);
}

#[test]
fn placement_errors() {
    let mut g = Grid::from_compact(EASY).unwrap();
    assert_eq!(g.set(Pos { r: 0, c: 0 }, 5), Err(SudokuError::InvalidPlacement));
    assert_eq!(g.set(Pos { r: 0, c: 2 }, 0), Err(SudokuError::InvalidPlacement));
    assert_eq!(g.set(Pos { r: 0, c: 2 }, 10), Err(SudokuError::InvalidPlacement));
    assert_eq!(g.set(Pos { r: 0, c: 2 }, 1), Ok(()));
}

#[test]
fn placement_contradiction() {
    let mut s: Vec<char> = ".".repeat(81).chars().collect();
    for (k, d) in "12345678".chars().enumerate() {
        s[k] = d;
    }
    let text: String = s.into_iter().collect();
    let mut g = Grid::from_compact(&text).unwrap();
    assert_eq!(g.set(Pos { r: 1, c: 7 }, 9), Err(SudokuError::Contradiction));
}

#[test]
fn parse_wrong_length_fails() {
    let s = &EASY[..80];
    assert_eq!(s.len(), 80);
    assert_eq!(Grid::from_compact(s).unwrap_err(), SudokuError::MalformedInput);
    assert_eq!(Board::parse(s).unwrap_err(), SudokuError::MalformedInput);
}

#[test]
fn parse_errors() {
    let bad_char = EASY.replacen('.', "x", 1);
    assert_eq!(Grid::from_compact(&bad_char).unwrap_err(), SudokuError::MalformedInput);
    let dup = EASY.replacen("53", "55", 1);
    assert_eq!(Grid::from_compact(&dup).unwrap_err(), SudokuError::InvalidPlacement);
    let mut s: Vec<char> = ".".repeat(81).chars().collect();
    for (k, d) in "12345678".chars().enumerate() {
        s[k] = d;
    }
    s[9 + 7] = '9';
    let stuck: String = s.into_iter().collect();
    assert_eq!(Grid::from_compact(&stuck).unwrap_err(), SudokuError::Contradiction);
    let under = EASY.replace('.', "_");
    assert_eq!(Grid::from_compact(&under).unwrap_err(), SudokuError::MalformedInput);
}

#[test]
fn solve_reports_errors() {
    let mut g = Grid::empty();
    g.cells[0] = 1;
    g.cells[1] = 1;
    let mut trace: Vec<SolveEvent> = Vec::new();
    assert_eq!(Solver::new(SolveMode::Hybrid).solve(&mut g, &mut trace), Err(SudokuError::InvalidPlacement));
}

#[test]
fn bit_helpers() {
    assert_eq!(all_candidates(), 1022);
    assert_eq!(bitcount(0b1010_0110), 4);
    assert_eq!(bitcount(0), 0);
    assert_eq!(first_bit(0b1000), Some(3));
    assert_eq!(first_bit(0), None);
    assert_eq!(Pos { r: 2, c: 3 }.idx(), 21);
}

#[test]
fn peers_are_twenty() {
    let p = peers_of(Pos { r: 4, c: 4 });
    assert_eq!(p.len(), 20);
    assert!(p.contains(&39) && p.contains(&4) && p.contains(&30));
    assert!(!p.contains(&40));
    assert_eq!(Grid::iterate_cells().len(), 81);
    assert_eq!(Grid::iterate_cells()[10], Pos { r: 1, c: 1 });
}

#[test]
fn pretty_string_layout() {
    let g = Grid::from_compact(EASY).unwrap();
    let s = g.to_pretty_string();
    let lines: Vec<&str> = s.lines().collect();
    assert_eq!(lines.len(), 13);
    assert_eq!(lines[0], "+-------+-------+-------+");
    assert_eq!(lines[1], "| 5 3 · | · 7 · | · · · |");
}

#[test]
fn board_queries() {
    let b = Board::parse(EASY).unwrap();
    assert_eq!(b.row_values(0), [5, 3, 0, 0, 7, 0, 0, 0, 0]);
    assert_eq!(b.col_values(0), [5, 6, 0, 8, 4, 7, 0, 0, 0]);
    assert_eq!(b.box_values(0, 0), [5, 3, 0, 6, 0, 0, 0, 9, 8]);
    let cand = b.candidates(0, 2);
    let allowed: Vec<usize> = (1..=9).filter(|&v| cand[v]).collect();
    assert_eq!(allowed, vec![1, 2, 4]);
    assert!(b.cells[0][0].fixed && !b.cells[0][2].fixed);
    let rows = [[0u8; 9]; 9];
    let e = Board::from_rows(rows);
    assert!(e.is_valid() && !e.is_solved());
}

#[test]
fn conflict_mask_marks_duplicates() {
    let mut b = Board::empty();
    b.cells[0][0].value = 4;
    b.cells[0][5].value = 4;
    b.cells[3][3].value = 2;
    let m = b.conflict_mask();
    assert!(m[0][0] && m[0][5]);
    assert!(!m[3][3]);
    assert!(!b.is_valid());
    assert_eq!(m.iter().flatten().filter(|&&x| x).count(), 2);
}

#[test]
fn board_parse_is_lenient() {
    let text = "53__7....\n6..195...\n.98....6.\n8...6...3\n4..8.3..1\n7...2...6\n.6....28.\n...419..5\n....8..79";
    let b = Board::parse(text).unwrap();
    assert_eq!(board_to_sdk(&b), EASY);
}

#[test]
fn board_render_layout() {
    let b = Board::parse(EASY).unwrap();
    let s = b.render();
    let lines: Vec<&str> = s.split('\n').collect();
    assert_eq!(lines[0], "5 3 . . 7 . . . . ");
    assert_eq!(lines[3], "");
    assert_eq!(s.len(), 9 * 19 + 2);
}

#[test]
fn brute_solver_finds_solution() {
    let b = Board::parse(EASY).unwrap();
    let s = BacktracingBruteSolver::new().solve_to_completion(&b).unwrap();
    assert_eq!(board_to_sdk(&s), EASY_SOLUTION);
    let mut bad = Board::parse(EASY).unwrap();
    bad.cells[0][2].value = 5;
    assert!(BacktracingBruteSolver::new().solve_to_completion(&bad).is_none());
}

#[test]
fn backtracking_reports_solution_and_budget() {
    let b = Board::parse(EASY).unwrap();
    let (steps, solved) = BacktrackingSolver::new().solve_board(&b, None);
    assert_eq!(board_to_sdk(&solved.unwrap()), EASY_SOLUTION);
    for (k, s) in steps.iter().enumerate() {
        assert_eq!(s.index, k + 1);
    }
    let (steps, solved) = BacktrackingSolver::new().solve_board(&b, Some(3));
    assert!(solved.is_none());
    assert!(steps.len() >= 3 && steps.len() <= 3 + 81);
    assert_eq!(BacktrackingSolver::new().name(), "Backtracking");
}

#[test]
fn logical_solver_solves_easy() {
    let b = Board::parse(EASY).unwrap();
    let (steps, end) = LogicalSolver::new().solve_board(&b, None);
    assert_eq!(board_to_sdk(&end), EASY_SOLUTION);
    assert_eq!(steps.len(), 51);
    assert!(matches!(steps[0].kind, StepKind::Place { .. }));
    assert_eq!(LogicalSolver::new().name(), "Logical");
}

#[test]
fn counting_solutions() {
    let mut b = Board::parse(EASY).unwrap();
    assert_eq!(count_solutions(&mut b, 2), 1);
    assert_eq!(board_to_sdk(&b), EASY);
    let mut e = Board::empty();
    assert_eq!(count_solutions(&mut e, 2), 2);
    let mut bad = Board::parse(EASY).unwrap();
    bad.cells[0][2].value = 5;
    assert_eq!(count_solutions(&mut bad, 2), 0);
}

#[test]
fn mrv_choice() {
    let b = Board::parse(EASY).unwrap();
    let (r, c) = find_next_mrv(&b).unwrap();
    let cand = b.candidates(r, c);
    assert_eq!((1..=9).filter(|&v| cand[v]).count(), 1);
    let s = BacktracingBruteSolver::new().solve_to_completion(&b).unwrap();
    assert!(find_next_mrv(&s).is_none());
}

#[test]
fn normalize_text() {
    let raw = format!("puzzle:\n{}\nend", EASY.replace('.', "0"));
    assert_eq!(normalize_puzzle_text(&raw).unwrap(), EASY);
    assert_eq!(
        normalize_puzzle_text("12.4x").unwrap_err(),
        "Puzzle must contain 81 characters (digits or .): got 4"
    );
    let long = format!("{}{}", EASY, "123");
    assert_eq!(normalize_puzzle_text(&long).unwrap(), EASY);
}

#[test]
fn session_markdown() {
    let b = Board::empty();
    let log = SessionLog {
        title: "T".to_string(),
        puzzle: "p".to_string(),
        solver_name: "Logical".to_string(),
        steps: vec![
            Step { index: 1, kind: StepKind::Place { r: 0, c: 1, v: 7, reason: "why".to_string() }, board: b },
            Step { index: 2, kind: StepKind::Backtrack, board: b },
        ],
    };
    let md = format_session_markdown(&log);
    let drawing = b.render();
    let expect = format!(
        "# T\nSolver: Logical\nPuzzle: `p`\n\n## Steps\n\n### Step 1\n- Place 7 at (1, 2) — why\n\n``\n{}\n``\n\n### Step 2\n- Backtrack\n\n``\n{}\n``\n",
        drawing, drawing
    );
    assert_eq!(md, expect);
}

#[test]
fn maze_drawing() {
    let m = Maze::new(1, 1);
    assert_eq!(m.to_ascii(), "+--+\n|  |\n+--+\n");
    let a = Maze::generate_recursive_backtracker(4, 3, Some(5));
    let b = Maze::generate_recursive_backtracker(4, 3, Some(5));
    assert_eq!(a.to_ascii(), b.to_ascii());
    assert_eq!(a.width, 4);
    assert_eq!(a.to_ascii().len(), (3 * 4 + 2) * (2 * 3 + 1));
    let seeds: Vec<String> = (0..6).map(|s| Maze::generate_recursive_backtracker(4, 4, Some(s)).to_ascii()).collect();
    assert!(seeds.iter().any(|t| t != &seeds[0]));
}

#[test]
fn error_messages() {
    assert_eq!(SudokuError::MalformedInput.message(), "malformed puzzle input");
    assert_eq!(SudokuError::InvalidPlacement.message(), "invalid placement");
}

#[test]
fn logical_mode_reaches_fixpoint() {
    let mut g = Grid::from_compact(EASY).unwrap();
    let mut trace: Vec<SolveEvent> = Vec::new();
    Solver::new(SolveMode::LogicalOnly).solve(&mut g, &mut trace).unwrap();
    assert_eq!(g.to_compact(), EASY_SOLUTION);
    assert!(trace.iter().all(|e| matches!(e, SolveEvent::Deduced { .. })));
    let mut h = Grid::from_compact(HARD).unwrap();
    Solver::new(SolveMode::LogicalOnly).solve(&mut h, &mut trace).unwrap();
    let before = h.to_compact();
    assert!(naked_single(&mut h).unwrap().is_none());
    assert!(hidden_single(&mut h).unwrap().is_none());
    assert!(naked_pair(&mut h).is_none());
    assert!(pointing_pair_triple(&mut h).is_none());
    assert!(box_line_reduction(&mut h).is_none());
    assert!(x_wing(&mut h).is_none());
    assert_eq!(h.to_compact(), before);
}

#[test]
fn search_reports_unsolvable_puzzle() {
    let mut s: Vec<char> = ".".repeat(81).chars().collect();
    for (k, d) in "1234567".chars().enumerate() {
        s[k] = d;
    }
    s[3 * 9 + 7] = '8';
    s[6 * 9 + 8] = '8';
    let text: String = s.into_iter().collect();
    let mut g = Grid::from_compact(&text).unwrap();
    let mut trace: Vec<SolveEvent> = Vec::new();
    assert_eq!(Solver::new(SolveMode::SearchOnly).solve(&mut g, &mut trace), Err(SudokuError::Contradiction));
    let mut h = Grid::from_compact(&text).unwrap();
    assert_eq!(Solver::new(SolveMode::Hybrid).solve(&mut h, &mut trace), Err(SudokuError::Contradiction));
}

#[test]
fn filled_cell_has_no_candidates() {
    let b = Board::parse(EASY).unwrap();
    let cand = b.candidates(0, 0);
    assert!(cand.iter().all(|&x| !x));
}

#[test]
fn naked_pair_keeps_narrowed_member() {
    let mut unit = [[false; 10]; 9];
    unit[0][1] = true;
    unit[0][2] = true;
    unit[1][1] = true;
    unit[1][2] = true;
    for i in 2..9 {
        unit[i][5] = true;
        unit[i][6] = true;
        unit[i][i - 1] = true;
    }
    let narrowed: u16 = 1 << 1;
    assert_eq!(suko::reductions::reduce_by_naked_pairs_unit(narrowed, unit), narrowed);
}

#[test]
fn fill_with_orders_gives_solution() {
    let mut b = Board::empty();
    let orders = [[1u8, 2, 3, 4, 5, 6, 7, 8, 9]; 81];
    assert!(suko::puzzle::fill_grid_with(&mut b, &orders));
    assert!(b.is_solved());
    let mut again = Board::empty();
    suko::puzzle::fill_grid_with(&mut again, &orders);
    assert_eq!(board_to_sdk(&b), board_to_sdk(&again));
    let reversed = [[9u8, 8, 7, 6, 5, 4, 3, 2, 1]; 81];
    let mut other = Board::empty();
    suko::puzzle::fill_grid_with(&mut other, &reversed);
    assert!(other.is_solved());
    assert_ne!(board_to_sdk(&b), board_to_sdk(&other));
}

#[test]
fn maze_is_perfect() {
    for seed in 0..4 {
        let (w, h) = (5usize, 4usize);
        let m = Maze::generate_recursive_backtracker(w, h, Some(seed));
        let wall = |x: usize, y: usize, d: usize| m.grid[y * w + x].walls[d];
        let mut open = 0;
        for y in 0..h {
            for x in 0..w {
                if x + 1 < w {
                    assert_eq!(wall(x, y, 1), wall(x + 1, y, 3));
                    if !wall(x, y, 1) {
                        open += 1;
                    }
                }
                if y + 1 < h {
                    assert_eq!(wall(x, y, 2), wall(x, y + 1, 0));
                    if !wall(x, y, 2) {
                        open += 1;
                    }
                }
                if x == 0 { assert!(wall(x, y, 3)); }
                if x + 1 == w { assert!(wall(x, y, 1)); }
                if y == 0 { assert!(wall(x, y, 0)); }
                if y + 1 == h { assert!(wall(x, y, 2)); }
            }
        }
        assert_eq!(open, w * h - 1);
    }
}

#[test]
fn backtracking_first_step_is_mrv_guess() {
    let b = Board::parse(HARD).unwrap();
    let (steps, solved) = BacktrackingSolver::new().solve_board(&b, None);
    assert!(solved.is_some());
    let (r, c) = find_next_mrv(&b).unwrap();
    match steps[0].kind {
        StepKind::Guess { r: gr, c: gc, v } => {
            assert_eq!((gr, gc), (r, c));
            let cand = b.candidates(r, c);
            let smallest = (1..=9).find(|&d| cand[d]).unwrap();
            assert_eq!(v as usize, smallest);
        }
        _ => panic!("first step should be a guess"),
    }
    assert!(matches!(steps.last().unwrap().kind, StepKind::Guess { .. }));
    assert!(steps.last().unwrap().board.is_solved());
}

#[test]
fn sdk_round_trip_through_parse() {
    let b = PuzzleGenerator::new(Some(3)).generate_puzzle(40);
    let text = board_to_sdk(&b);
    let back = Board::parse(&text).unwrap();
    assert_eq!(board_to_sdk(&back), text);
    for r in 0..9 {
        for c in 0..9 {
            assert_eq!(back.cells[r][c].value, b.cells[r][c].value);
        }
    }
}

#[test]
fn same_seed_same_puzzle() {
    let a = PuzzleGenerator::new(Some(11)).generate_puzzle(32);
    let b = PuzzleGenerator::new(Some(11)).generate_puzzle(32);
    assert_eq!(board_to_sdk(&a), board_to_sdk(&b));
}

#[test]
fn backtracking_budget_bounds_all_steps() {
    let b = Board::parse(HARD).unwrap();
    let empty = board_to_sdk(&b).chars().filter(|&c| c == '.').count();
    for m in [1usize, 5, 20] {
        let (steps, _) = BacktrackingSolver::new().solve_board(&b, Some(m));
        assert!(steps.len() <= m + empty);
        assert!(steps.iter().all(|s| !matches!(s.kind, StepKind::Guess { .. }) || s.index <= m));
        assert!(matches!(steps[0].kind, StepKind::Guess { .. }));
    }
}

#[test]
fn search_trace_records_tries() {
    let mut g = Grid::from_compact(HARD).unwrap();
    let mut trace: Vec<SolveEvent> = Vec::new();
    Solver::new(SolveMode::SearchOnly).solve(&mut g, &mut trace).unwrap();
    assert!(!trace.is_empty());
    for e in &trace {
        match e {
            SolveEvent::Try { idx, digit, grid, .. } => assert_eq!(grid.get(Pos { r: idx / 9, c: idx % 9 }), *digit),
            SolveEvent::Backtrack { .. } => {}
            SolveEvent::Deduced { .. } => panic!("search records no deductions"),
        }
    }
}

#[test]
fn hidden_single_reason_names_unit() {
    let b = Board::parse(EASY).unwrap();
    if let Some((_, _, _, reason)) = suko::stepwise::find_hidden_single(&b) {
        assert!(reason.starts_with("Hidden single in "));
    }
}

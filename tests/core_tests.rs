use suko::board::Board;
use suko::reductions::{apply_locked_pointing_claiming, reduce_by_naked_pairs_unit};
use suko::stepwise::{BacktrackingSolver, LogicalSolver, Solver};

fn easy_puzzle() -> &'static str {
    "53..7....\n6..195...\n.98....6.\n8...6...3\n4..8.3..1\n7...2...6\n.6....28.\n...419..5\n....8..79"
}

#[test]
fn reduces_by_naked_pairs_in_row_to_single() {
    let mut unit = [[false; 10]; 9];
    unit[0][1] = true;
    unit[0][2] = true;
    unit[1][1] = true;
    unit[1][2] = true;
    unit[2][1] = true;
    unit[2][2] = true;
    unit[2][3] = true;
    for i in 3..9 {
        unit[i][4] = true;
    }
    let current_mask: u16 = (1u16 << 1) | (1u16 << 2) | (1u16 << 3);
    let new_mask = reduce_by_naked_pairs_unit(current_mask, unit);
    assert_eq!(new_mask.count_ones(), 1, "mask should reduce to a single");
    assert!(new_mask & (1u16 << 3) != 0, "remaining candidate should be 3");
}

#[test]
fn claiming_row_eliminates_candidate_in_box() {
    let mut b = Board::empty();
    for col in 3..=8 {
        b.cells[2][col].value = 5;
    }
    let r = 1usize;
    let c = 0usize;
    let v = 5u8;
    assert!(b.candidates(r, c)[v as usize], "precondition: v should be a candidate initially");
    let mut mask = 0u16;
    for vv in 1..=9 {
        if b.candidates(r, c)[vv as usize] {
            mask |= 1u16 << vv;
        }
    }
    let new_mask = apply_locked_pointing_claiming(&b, r, c, mask);
    assert!(new_mask & (1u16 << v) == 0, "candidate {} should be eliminated by claiming", v);
}

#[test]
fn parse_and_validity() {
    let b = Board::parse(easy_puzzle()).expect("parse");
    assert!(b.is_valid(), "initial board should be valid");
    assert!(!b.is_solved(), "not solved yet");
}

#[test]
fn backtracking_solves_easy() {
    let b = Board::parse(easy_puzzle()).unwrap();
    let mut solver = BacktrackingSolver::new();
    let steps = solver.solve_steps(&b, None);
    assert!(!steps.is_empty(), "should produce steps");
    let last = steps.last().unwrap();
    assert!(last.board.is_valid());
}

#[test]
fn logical_progress_single_step() {
    let b = Board::parse(easy_puzzle()).unwrap();
    let mut solver = LogicalSolver::new();
    let steps = solver.solve_steps(&b, Some(1));
    if let Some(last) = steps.last() {
        assert!(last.board.is_valid());
    }
}

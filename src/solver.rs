//! The top-level solver over [`Grid`]: deduction strategies to a fixpoint,
//! backtracking search with the minimum-remaining-values heuristic, or the
//! strategies followed by search.
use vstd::prelude::*;
use crate::bits::{bitcount, test_bit};
use crate::error::SudokuError;
use crate::grid::{check_no_conflict, empty_count, is_solution, lemma_fill_decreases, stuck, Grid, Pos};
use crate::strategies::{
    box_line_reduction, fixpoint, hidden_single, lemma_progress_measure, lemma_sound_trans, naked_pair, naked_single,
    pointing_pair_triple, progressed, sound_step, x_wing, Deduction,
};

verus! {

/// Which engines the solver runs.
#[derive(Clone, Copy, Debug, PartialEq, Eq, Structural)]
pub enum SolveMode {
    LogicalOnly,
    SearchOnly,
    Hybrid,
}

/// The family of solving algorithm.
#[derive(Clone, Copy, Debug, PartialEq, Eq, Structural)]
pub enum Algorithm {
    Logical,
    Backtracking,
}

/// One solver step, reported for logging, with the board as it stood after
/// the step.
#[derive(Clone, Copy, Debug)]
pub enum SolveEvent {
    /// A deduction rule applied.
    Deduced { step: Deduction, grid: Grid },
    /// Digit `digit` was committed at cell `idx` at recursion depth `depth`.
    Try { depth: usize, idx: usize, digit: u8, grid: Grid },
    /// Every candidate of cell `idx` failed at depth `depth`; `tried` holds
    /// the digits tried as a mask. The board is as it was before the tries.
    Backtrack { depth: usize, idx: usize, tried: u16, grid: Grid },
}

/// The board an event shows.
pub open spec fn event_grid(e: SolveEvent) -> Grid {
    match e {
        SolveEvent::Deduced { grid, .. } => grid,
        SolveEvent::Try { grid, .. } => grid,
        SolveEvent::Backtrack { grid, .. } => grid,
    }
}

/// `new` starts with all of `old`.
pub open spec fn keeps_events(old: Seq<SolveEvent>, new: Seq<SolveEvent>) -> bool {
    old.len() <= new.len() && forall|k: int| 0 <= k < old.len() ==> #[trigger] new[k] == old[k]
}

/// A search event on a search from `g0`: a try shows a well-formed board
/// narrowing `g0` with the tried digit in its cell; a backtrack shows a
/// well-formed board narrowing `g0`.
pub open spec fn search_event(g0: Grid, e: SolveEvent) -> bool {
    match e {
        SolveEvent::Deduced { .. } => false,
        SolveEvent::Try { idx, digit, grid, .. } => idx < 81 && grid.cells@[idx as int] == digit && grid.wf() && grid.narrows(g0),
        SolveEvent::Backtrack { grid, .. } => grid.wf() && grid.narrows(g0),
    }
}

/// Every event from position `base` on is a search event from `g0`.
pub open spec fn search_events(g0: Grid, events: Seq<SolveEvent>, base: int) -> bool {
    forall|k: int| base <= k < events.len() ==> search_event(g0, #[trigger] events[k])
}

/// The board before the event at position `k`, counting from `base`.
pub open spec fn prev_grid(g0: Grid, events: Seq<SolveEvent>, base: int, k: int) -> Grid {
    if k <= base {
        g0
    } else {
        event_grid(events[k - 1])
    }
}

/// The board after the events from position `base` on.
pub open spec fn last_grid(g0: Grid, events: Seq<SolveEvent>, base: int) -> Grid {
    if events.len() <= base {
        g0
    } else {
        event_grid(events.last())
    }
}

/// `b` is a sound step from `a` that removed a candidate.
#[verifier::opaque]
pub open spec fn deduction_step(a: Grid, b: Grid) -> bool {
    sound_step(a, b) && progressed(a, b)
}

/// Unfolds `deduction_step`.
pub proof fn lemma_deduction_step(a: Grid, b: Grid)
    ensures
        deduction_step(a, b) <==> sound_step(a, b) && progressed(a, b),
{
    reveal(deduction_step);
}

/// From position `base` on, each event is a deduction whose board is a
/// sound step from the previous one that removed a candidate.
pub open spec fn deduction_chain(g0: Grid, events: Seq<SolveEvent>, base: int) -> bool {
    forall|k: int|
        base <= k < events.len() ==> (#[trigger] events[k]) is Deduced && deduction_step(prev_grid(g0, events, base, k), event_grid(events[k]))
}

/// From position `base`, the events before `j` are deductions and the rest
/// are search events.
pub open spec fn deductions_then_search(events: Seq<SolveEvent>, base: int, j: int) -> bool {
    &&& base <= j <= events.len()
    &&& forall|k: int| base <= k < j ==> (#[trigger] events[k]) is Deduced
    &&& forall|k: int| j <= k < events.len() ==> !((#[trigger] events[k]) is Deduced)
}

/// The events a mode appends: deductions only, search events only, or
/// deductions followed by search events.
pub open spec fn trace_shape(mode: SolveMode, events: Seq<SolveEvent>, base: int) -> bool {
    match mode {
        SolveMode::LogicalOnly => deductions_then_search(events, base, events.len() as int),
        SolveMode::SearchOnly => deductions_then_search(events, base, base),
        SolveMode::Hybrid => exists|j: int| #[trigger] deductions_then_search(events, base, j),
    }
}

/// Backtracking search on a copy per branch. On success the board is a
/// solution of the input; on failure it is unchanged and no solution is
/// consistent with it.
fn search(grid: &mut Grid, trace: &mut Vec<SolveEvent>, depth: usize) -> (r: bool)
    requires
        old(grid).wf(),
    ensures
        r ==> final(grid).wf() && final(grid).solved() && final(grid).narrows(*old(grid))
            && old(grid).consistent(final(grid).cells@),
        !r ==> *final(grid) == *old(grid) && forall|sol: Seq<u8>| !#[trigger] old(grid).consistent(sol),
        keeps_events(old(trace)@, final(trace)@),
        search_events(*old(grid), final(trace)@, old(trace)@.len() as int),
    decreases empty_count(grid.cells@),
{
    if grid.is_solved() {
        proof {
            Grid::lemma_narrows_refl(*grid);
            Grid::lemma_solved_consistent(*grid, *grid);
        }
        return true;
    }
    let mut best: Option<usize> = None;
    let mut best_count: u32 = 0;
    let mut i: usize = 0;
    while i < 81
        invariant
            i <= 81,
            grid.wf(),
            *grid == *old(grid),
            best matches Some(b) ==> b < 81 && grid.cells@[b as int] == 0,
            best is None ==> forall|k: int| 0 <= k < i ==> #[trigger] grid.cells@[k] != 0,
        ensures
            best matches Some(b) ==> b < 81 && grid.cells@[b as int] == 0,
            best is None ==> forall|k: int| 0 <= k < 81 ==> #[trigger] grid.cells@[k] != 0,
        decreases 81 - i,
    {
        if grid.cells[i] == 0 {
            if grid.cands[i] == 0 {
                proof {
                    assert forall|sol: Seq<u8>| !#[trigger] grid.consistent(sol) by {
                        if grid.consistent(sol) {
                            crate::bits::lemma_zero_mask(sol[i as int] as u16);
                        }
                    }
                }
                return false;
            }
            let bc = bitcount(grid.cands[i]);
            if best.is_none() || bc < best_count {
                best = Some(i);
                best_count = bc;
                if bc == 1 {
                    break;
                }
            }
        }
        i = i + 1;
    }
    let i = match best {
        Some(i) => i,
        None => {
            proof {
                assert(grid.solved());
            }
            return false;
        },
    };
    let ghost g0 = *grid;
    let candmask = grid.cands[i];
    let mut tried: u16 = 0;
    let mut d: u8 = 1;
    while d <= 9
        invariant
            1 <= d <= 10,
            i < 81,
            *grid == g0,
            g0 == *old(grid),
            g0.wf(),
            g0.cells@[i as int] == 0,
            candmask == g0.cands@[i as int],
            forall|sol: Seq<u8>| #[trigger] g0.consistent(sol) ==> sol[i as int] >= d,
            keeps_events(old(trace)@, trace@),
            search_events(g0, trace@, old(trace)@.len() as int),
        decreases 10 - d,
    {
        if test_bit(candmask, d as u16) {
            tried = tried | (1u16 << (d as u16));
            let mut child = *grid;
            assert((i / 9) * 9 + i % 9 == i);
            match child.set(Pos { r: i / 9, c: i % 9 }, d) {
                Err(_) => {
                    proof {
                        assert forall|sol: Seq<u8>| #[trigger] g0.consistent(sol) implies sol[i as int] >= d + 1 by {
                            if sol[i as int] == d {
                                Grid::lemma_place_keeps_solution(g0, child, i as int, sol);
                                let q = choose|q: int| crate::grid::peer(i as int, q) && #[trigger] child.cells@[q] == 0 && child.cands@[q] == 0;
                                crate::bits::lemma_zero_mask(sol[q] as u16);
                            }
                        }
                    }
                },
                Ok(()) => {
                    let ghost before_push = trace@;
                    trace.push(SolveEvent::Try { depth, idx: i, digit: d, grid: child });
                    proof {
                        assert forall|k: int| 0 <= k < before_push.len() implies #[trigger] trace@[k] == before_push[k] by {}
                        assert(search_events(g0, trace@, old(trace)@.len() as int)) by {
                            assert forall|k: int| old(trace)@.len() <= k < trace@.len() implies search_event(g0, #[trigger] trace@[k]) by {
                                if k < before_push.len() {
                                    assert(trace@[k] == before_push[k]);
                                }
                            }
                        }
                        assert(keeps_events(old(trace)@, trace@)) by {
                            assert forall|k: int| 0 <= k < old(trace)@.len() implies #[trigger] trace@[k] == old(trace)@[k] by {
                                assert(trace@[k] == before_push[k]);
                            }
                        }
                        assert(crate::bits::has_bit(g0.cands@[i as int], d as u16));
                        assert(child.cells@ == g0.cells@.update(i as int, d));
                        lemma_fill_decreases(g0.cells@, i as int, d);
                        assert(empty_count(child.cells@) < empty_count(g0.cells@));
                    }
                    let ghost placed = child;
                    let ghost mid = trace@;
                    let depth_next = if depth < usize::MAX { depth + 1 } else { depth };
                    let found = search(&mut child, trace, depth_next);
                    proof {
                        assert(keeps_events(old(trace)@, trace@)) by {
                            assert forall|k: int| 0 <= k < old(trace)@.len() implies #[trigger] trace@[k] == old(trace)@[k] by {
                                assert(trace@[k] == mid[k]);
                            }
                        }
                        assert forall|k: int| old(trace)@.len() <= k < trace@.len() implies search_event(g0, #[trigger] trace@[k]) by {
                            if k < mid.len() {
                                assert(trace@[k] == mid[k]);
                            } else {
                                assert(search_event(placed, trace@[k]));
                                let e = trace@[k];
                                Grid::lemma_narrows_trans(event_grid(e), placed, g0);
                            }
                        }
                    }
                    if found {
                        proof {
                            Grid::lemma_narrows_trans(child, placed, g0);
                            Grid::lemma_solved_consistent(child, g0);
                        }
                        *grid = child;
                        return true;
                    }
                    proof {
                        assert forall|sol: Seq<u8>| #[trigger] g0.consistent(sol) implies sol[i as int] >= d + 1 by {
                            if sol[i as int] == d {
                                Grid::lemma_place_keeps_solution(g0, placed, i as int, sol);
                                assert(placed.consistent(sol));
                            }
                        }
                    }
                },
            }
        } else {
            proof {
                assert forall|sol: Seq<u8>| #[trigger] g0.consistent(sol) implies sol[i as int] >= d + 1 by {
                    assert(sol[i as int] >= d);
                }
            }
        }
        d = d + 1;
    }
    let ghost before_push = trace@;
    trace.push(SolveEvent::Backtrack { depth, idx: i, tried, grid: *grid });
    proof {
        Grid::lemma_narrows_refl(g0);
        assert forall|k: int| old(trace)@.len() <= k < trace@.len() implies search_event(g0, #[trigger] trace@[k]) by {
            if k < before_push.len() {
                assert(trace@[k] == before_push[k]);
            }
        }
        assert forall|k: int| 0 <= k < old(trace)@.len() implies #[trigger] trace@[k] == old(trace)@[k] by {
            assert(trace@[k] == before_push[k]);
        }
    }
    false
}



/// `sol` solves the puzzle whose committed digits are `cells`.
pub open spec fn is_completion(sol: Seq<u8>, cells: Seq<u8>) -> bool {
    &&& is_solution(sol)
    &&& forall|i: int| 0 <= i < 81 && #[trigger] cells[i] != 0 ==> sol[i] == cells[i]
}

/// The puzzle `cells` has at least one solution.
pub open spec fn solvable(cells: Seq<u8>) -> bool {
    exists|sol: Seq<u8>| #[trigger] is_completion(sol, cells)
}

/// With exact candidates, the consistent solutions are exactly the
/// solutions of the puzzle.
proof fn lemma_exact_consistent(g: Grid, sol: Seq<u8>)
    requires
        g.wf(),
        forall|i: int| 0 <= i < 81 ==> crate::grid::exact_mask(g.cells@, i, #[trigger] g.cands@[i]),
    ensures
        g.consistent(sol) <==> is_completion(sol, g.cells@),
{
    if is_completion(sol, g.cells@) {
        assert forall|i: int| 0 <= i < 81 implies (if g.cells@[i] != 0 {
            #[trigger] sol[i] == g.cells@[i]
        } else {
            crate::bits::has_bit(g.cands@[i], sol[i] as u16)
        }) by {
            assert(crate::grid::exact_mask(g.cells@, i, g.cands@[i]));
            if g.cells@[i] == 0 {
                assert forall|j: int| #[trigger] crate::grid::peer(i, j) implies g.cells@[j] != sol[i] as int by {
                    if g.cells@[j] != 0 {
                        assert(sol[j] == g.cells@[j]);
                    }
                }
            }
        }
    }
    if g.consistent(sol) {
        assert forall|i: int| 0 <= i < 81 && #[trigger] g.cells@[i] != 0 implies sol[i] == g.cells@[i] by {
            assert(sol[i] == sol[i]);
        }
    }
}

/// A puzzle whose digits conflict, or with an empty cell that no digit can
/// fill, has no solution.
pub proof fn lemma_unsolvable(cells: Seq<u8>)
    requires
        cells.len() == 81,
        !crate::grid::no_conflict(cells) || stuck(cells),
    ensures
        !solvable(cells),
{
    if solvable(cells) {
        let sol = choose|sol: Seq<u8>| #[trigger] is_completion(sol, cells);
        if !crate::grid::no_conflict(cells) {
            let (i, j) = choose|i: int, j: int|
                #[trigger] crate::grid::peer(i, j) && cells[i] != 0 && !(cells[i] != cells[j]);
            assert(sol[i] == cells[i] && sol[j] == cells[j]);
        } else {
            let i = choose|i: int|
                0 <= i < 81 && #[trigger] cells[i] == 0 && forall|d: int| 1 <= d <= 9 ==> !crate::grid::allowed(cells, i, d);
            assert(1 <= sol[i] <= 9);
            assert(crate::grid::allowed(cells, i, sol[i] as int)) by {
                assert forall|j: int| #[trigger] crate::grid::peer(i, j) implies cells[j] != sol[i] as int by {
                    if cells[j] != 0 {
                        assert(sol[j] == cells[j]);
                    }
                }
            }
        }
    }
}

/// A puzzle with a single solution: the solution every solving mode that
/// succeeds must produce. Hybrid solving and search alone therefore agree on
/// such a puzzle.
pub proof fn lemma_unique_solution_agrees(cells: Seq<u8>, a: Seq<u8>, b: Seq<u8>)
    requires
        is_completion(a, cells),
        is_completion(b, cells),
        forall|s1: Seq<u8>, s2: Seq<u8>| #[trigger] is_completion(s1, cells) && #[trigger] is_completion(s2, cells) ==> s1 == s2,
    ensures
        a == b,
{
}

/// Configures and runs the solving engines.
pub struct Solver {
    pub mode: SolveMode,
}

impl Solver {
    pub fn new(mode: SolveMode) -> (s: Solver)
        ensures
            s.mode == mode,
    {
        Solver { mode }
    }

    /// Recomputes the candidates, then runs the engines of the mode.
    /// Digits that conflict fail with `InvalidPlacement`; a puzzle found to
    /// have no solution fails with `Contradiction`. With search involved the
    /// call succeeds exactly when the puzzle has a solution, and leaves one
    /// on the board. Logical solving only keeps every solution of the
    /// puzzle consistent with the board.
    pub fn solve(&mut self, grid: &mut Grid, trace: &mut Vec<SolveEvent>) -> (r: Result<(), SudokuError>)
        requires
            forall|i: int| 0 <= i < 81 ==> #[trigger] old(grid).cells@[i] <= 9,
        ensures
            final(self).mode == old(self).mode,
            r is Err ==> !solvable(old(grid).cells@),
            stuck(old(grid).cells@) ==> r is Err,
            !crate::grid::no_conflict(old(grid).cells@) || stuck(old(grid).cells@) ==> final(grid).cells == old(grid).cells
                && final(trace)@ == old(trace)@,
            r is Err && crate::grid::no_conflict(old(grid).cells@) ==> r == Err::<(), SudokuError>(SudokuError::Contradiction),
            !crate::grid::no_conflict(old(grid).cells@) ==> r == Err::<(), SudokuError>(SudokuError::InvalidPlacement),
            r is Ok ==> final(grid).wf(),
            old(self).mode == SolveMode::LogicalOnly && r is Ok ==> fixpoint(*final(grid)) && forall|sol: Seq<u8>|
                #[trigger] is_completion(sol, old(grid).cells@) ==> final(grid).consistent(sol),
            old(self).mode != SolveMode::LogicalOnly ==> (r is Ok <==> solvable(old(grid).cells@)),
            old(self).mode != SolveMode::LogicalOnly && r is Ok ==> final(grid).solved()
                && is_completion(final(grid).cells@, old(grid).cells@),
            keeps_events(old(trace)@, final(trace)@),
            trace_shape(old(self).mode, final(trace)@, old(trace)@.len() as int),
    {
        let ghost cells = grid.cells@;
        let ghost base = trace@.len() as int;
        if !check_no_conflict(&grid.cells) {
            proof {
                lemma_unsolvable(cells);
                assert(deductions_then_search(trace@, base, base));
            }
            return Err(SudokuError::InvalidPlacement);
        }
        if grid.infer_all_candidates().is_err() {
            proof {
                lemma_unsolvable(cells);
                assert(deductions_then_search(trace@, base, base));
            }
            return Err(SudokuError::Contradiction);
        }
        let ghost g1 = *grid;
        proof {
            assert forall|sol: Seq<u8>| #[trigger] g1.consistent(sol) <==> is_completion(sol, cells) by {
                lemma_exact_consistent(g1, sol);
            }
        }
        match self.mode {
            SolveMode::LogicalOnly => {
                let r = self.solve_logically(grid, trace);
                proof {
                    assert(old(self).mode == SolveMode::LogicalOnly);
                    assert(deductions_then_search(trace@, base, trace@.len() as int));
                    assert forall|sol: Seq<u8>| #[trigger] is_completion(sol, cells) implies grid.consistent(sol) && r is Ok by {
                        assert(g1.consistent(sol));
                    }
                }
                r
            },
            SolveMode::SearchOnly => {
                let found = self.solve_search(grid, trace);
                proof {
                    assert forall|k: int| base <= k < trace@.len() implies !((#[trigger] trace@[k]) is Deduced) by {
                        assert(search_event(g1, trace@[k]));
                    }
                    assert(deductions_then_search(trace@, base, base));
                }
                if found {
                    proof {
                        assert(g1.consistent(grid.cells@));
                        assert(is_completion(grid.cells@, cells));
                    }
                    Ok(())
                } else {
                    proof {
                        assert forall|sol: Seq<u8>| !#[trigger] is_completion(sol, cells) by {
                            if is_completion(sol, cells) {
                                assert(g1.consistent(sol));
                            }
                        }
                    }
                    Err(SudokuError::Contradiction)
                }
            },
            SolveMode::Hybrid => {
                let logical = self.solve_logically(grid, trace);
                let ghost mid = trace@;
                proof {
                    assert(deductions_then_search(trace@, base, trace@.len() as int));
                }
                match logical {
                    Err(e) => {
                        proof {
                            assert forall|sol: Seq<u8>| !#[trigger] is_completion(sol, cells) by {
                                if is_completion(sol, cells) {
                                    assert(g1.consistent(sol));
                                }
                            }
                        }
                        return Err(e);
                    },
                    Ok(()) => {},
                }
                let ghost g2 = *grid;
                if !grid.is_solved() {
                    let found = self.solve_search(grid, trace);
                    proof {
                        assert forall|k: int| 0 <= k < old(trace)@.len() implies #[trigger] trace@[k] == old(trace)@[k] by {
                            assert(trace@[k] == mid[k]);
                        }
                        assert forall|k: int| base <= k < mid.len() implies (#[trigger] trace@[k]) is Deduced by {
                            assert(trace@[k] == mid[k]);
                        }
                        assert forall|k: int| mid.len() <= k < trace@.len() implies !((#[trigger] trace@[k]) is Deduced) by {
                            assert(search_event(g2, trace@[k]));
                        }
                        assert(deductions_then_search(trace@, base, mid.len() as int));
                    }
                    if !found {
                        proof {
                            assert forall|sol: Seq<u8>| !#[trigger] is_completion(sol, cells) by {
                                if is_completion(sol, cells) {
                                    assert(g1.consistent(sol));
                                    assert(g2.consistent(sol));
                                }
                            }
                        }
                        return Err(SudokuError::Contradiction);
                    }
                    proof {
                        Grid::lemma_narrows_trans(*grid, g2, g1);
                        Grid::lemma_solved_consistent(*grid, g1);
                        assert(is_completion(grid.cells@, cells));
                    }
                } else {
                    proof {
                        Grid::lemma_solved_consistent(*grid, g1);
                        assert(is_completion(grid.cells@, cells));
                    }
                }
                Ok(())
            },
        }
    }

    /// Applies the deduction rules in their fixed order, restarting from the
    /// first after every step, until none applies. Each step is reported.
    /// The board keeps every solution it had; a failure is a contradiction
    /// and shows the board had none.
    pub fn solve_logically(&mut self, grid: &mut Grid, trace: &mut Vec<SolveEvent>) -> (r: Result<(), SudokuError>)
        requires
            old(grid).wf(),
        ensures
            final(self).mode == old(self).mode,
            sound_step(*old(grid), *final(grid)),
            r is Ok ==> fixpoint(*final(grid)),
            r is Err ==> r == Err::<(), SudokuError>(SudokuError::Contradiction)
                && forall|sol: Seq<u8>| !#[trigger] old(grid).consistent(sol),
            keeps_events(old(trace)@, final(trace)@),
            deduction_chain(*old(grid), final(trace)@, old(trace)@.len() as int),
            r is Ok ==> *final(grid) == last_grid(*old(grid), final(trace)@, old(trace)@.len() as int),
    {
        let ghost g0 = *grid;
        let ghost base = trace@.len() as int;
        proof {
            Grid::lemma_narrows_refl(g0);
        }
        loop
            invariant
                grid.wf(),
                g0.wf(),
                g0 == *old(grid),
                self.mode == old(self).mode,
                sound_step(g0, *grid),
                base == old(trace)@.len(),
                keeps_events(old(trace)@, trace@),
                deduction_chain(g0, trace@, base),
                *grid == last_grid(g0, trace@, base),
            ensures
                grid.wf(),
                self.mode == old(self).mode,
                sound_step(g0, *grid),
                fixpoint(*grid),
                keeps_events(old(trace)@, trace@),
                deduction_chain(g0, trace@, base),
                *grid == last_grid(g0, trace@, base),
            decreases crate::bits::pop_sum(grid.cands@, 81),
        {
            let ghost before = *grid;
            let mut step: Option<Deduction> = None;
            match naked_single(grid) {
                Err(e) => {
                    proof {
                        lemma_no_solution_back(g0, before);
                        lemma_sound_trans(g0, before, *grid);
                    }
                    return Err(e);
                },
                Ok(s) => {
                    step = s;
                },
            }
            if step.is_none() {
                match hidden_single(grid) {
                    Err(e) => {
                        proof {
                            lemma_no_solution_back(g0, before);
                            lemma_sound_trans(g0, before, *grid);
                        }
                        return Err(e);
                    },
                    Ok(s) => {
                        step = s;
                    },
                }
            }
            if step.is_none() {
                step = naked_pair(grid);
            }
            if step.is_none() {
                step = pointing_pair_triple(grid);
            }
            if step.is_none() {
                step = box_line_reduction(grid);
            }
            if step.is_none() {
                step = x_wing(grid);
            }
            match step {
                None => {
                    break;
                },
                Some(s) => {
                    let ghost prev_events = trace@;
                    trace.push(SolveEvent::Deduced { step: s, grid: *grid });
                    proof {
                        assert(trace@ == prev_events.push(SolveEvent::Deduced { step: s, grid: *grid }));
                        lemma_deduction_step(before, *grid);
                        lemma_chain_event(g0, prev_events, base, SolveEvent::Deduced { step: s, grid: *grid });
                        assert forall|k: int| 0 <= k < old(trace)@.len() implies #[trigger] trace@[k] == old(trace)@[k] by {
                            assert(trace@[k] == prev_events[k]);
                        }
                        lemma_progress_measure(before, *grid);
                        lemma_sound_trans(g0, before, *grid);
                    }
                },
            }
        }
        Ok(())
    }

    /// Exhaustive backtracking search; see the module documentation. On
    /// success the board is a solution consistent with the input; on failure
    /// the board is unchanged and has no consistent solution.
    pub fn solve_search(&mut self, grid: &mut Grid, trace: &mut Vec<SolveEvent>) -> (r: bool)
        requires
            old(grid).wf(),
        ensures
            final(self).mode == old(self).mode,
            r ==> final(grid).wf() && final(grid).solved() && final(grid).narrows(*old(grid))
                && old(grid).consistent(final(grid).cells@),
            !r ==> *final(grid) == *old(grid) && forall|sol: Seq<u8>| !#[trigger] old(grid).consistent(sol),
            keeps_events(old(trace)@, final(trace)@),
            search_events(*old(grid), final(trace)@, old(trace)@.len() as int),
    {
        search(grid, trace, 0)
    }
}

/// Appending a deduction from the last board extends the chain.
proof fn lemma_chain_event(g0: Grid, events: Seq<SolveEvent>, base: int, e: SolveEvent)
    requires
        0 <= base <= events.len(),
        deduction_chain(g0, events, base),
        e is Deduced,
        deduction_step(last_grid(g0, events, base), event_grid(e)),
    ensures
        deduction_chain(g0, events.push(e), base),
        last_grid(g0, events.push(e), base) == event_grid(e),
{
    let ev = events.push(e);
    assert forall|k: int| base <= k < ev.len() implies (#[trigger] ev[k]) is Deduced && deduction_step(prev_grid(g0, ev, base, k), event_grid(ev[k])) by {
        if k < events.len() {
            assert(ev[k] == events[k]);
            if k > base {
                assert(ev[k - 1] == events[k - 1]);
            }
            assert(prev_grid(g0, ev, base, k) == prev_grid(g0, events, base, k));
        } else {
            if k > base {
                assert(ev[k - 1] == events[k - 1]);
                assert(events.last() == events[k - 1]);
            }
            assert(prev_grid(g0, ev, base, k) == last_grid(g0, events, base));
        }
    }
}

proof fn lemma_no_solution_back(g0: Grid, before: Grid)
    requires
        sound_step(g0, before),
    ensures
        (forall|sol: Seq<u8>| !#[trigger] before.consistent(sol)) ==> forall|sol: Seq<u8>| !#[trigger] g0.consistent(sol),
{
}

} // verus!

//! Solvers over [`Board`] that report every step: a logical solver that
//! places forced digits, a backtracking solver that records its guesses and
//! backtracks, and a plain brute-force backtracker.
use vstd::prelude::*;
use vstd::string::*;
use crate::board::Board;
use crate::grid::{all_filled, allowed, empty_count, lemma_fill_decreases, no_conflict, peer, stuck};
use crate::puzzle::{
    allowed_below, candidate_count, mrv_choice, find_next_mrv, lemma_completion_allowed, lemma_completion_update,
    lemma_full_board,
};
use crate::solver::{is_completion, solvable};
use crate::text::push_text;
use crate::units::{in_unit, lemma_unit_cell, lemma_unit_has_digit, unit_cell, unit_cell_idx};

verus! {

/// What a step did.
#[derive(Clone, Debug)]
pub enum StepKind {
    /// A forced digit `v` was placed at (`r`, `c`), for the stated reason.
    Place { r: usize, c: usize, v: u8, reason: String },
    /// Digit `v` was tried at (`r`, `c`).
    Guess { r: usize, c: usize, v: u8 },
    /// The last guess was undone.
    Backtrack,
}

/// One numbered step with the board as it stood after it.
#[derive(Clone, Debug)]
pub struct Step {
    pub index: usize,
    pub kind: StepKind,
    pub board: Board,
}

/// How a solving run ended.
#[derive(Clone, Copy, Debug, PartialEq, Eq, Structural)]
pub enum SolverOutcome {
    Solved,
    Unsolvable,
    Incomplete,
}

/// Steps numbered 1, 2, 3, ... in order.
pub open spec fn numbered(steps: Seq<Step>) -> bool {
    forall|k: int| 0 <= k < steps.len() ==> #[trigger] steps[k].index == k + 1
}

/// A solver that reports its work as a sequence of steps.
pub trait Solver {
    /// The solver's display name.
    fn name(&self) -> &'static str;

    /// What this solver promises of the steps it reports for `board`.
    spec fn outcome(&self, board: Board, max_steps: Option<usize>, steps: Seq<Step>) -> bool;

    /// Solves a copy of `board`, stopping after `max_steps` steps when given.
    fn solve_steps(&mut self, board: &Board, max_steps: Option<usize>) -> (steps: Vec<Step>)
        requires
            board.wf(),
        ensures
            numbered(steps@),
            old(self).outcome(*board, max_steps, steps@),
    ;
}

/// The board before step `k`: the input for the first step.
pub open spec fn prev_board(board: Board, steps: Seq<Step>, k: int) -> Board {
    if k == 0 {
        board
    } else {
        steps[k - 1].board
    }
}

/// The board after the last step: the input when there is none.
pub open spec fn final_board(board: Board, steps: Seq<Step>) -> Board {
    if steps.len() == 0 {
        board
    } else {
        steps.last().board
    }
}

/// Step `s` places on an empty cell of `prev` a digit that every solution
/// of `prev` has there, and shows `prev` with it placed.
pub open spec fn forced_place(prev: Board, s: Step) -> bool {
    s.kind matches StepKind::Place { r, c, v, .. } && r < 9 && c < 9 && 1 <= v <= 9 && prev.vals()[r * 9 + c] == 0
        && s.board.vals() == prev.vals().update(r * 9 + c, v) && forced(prev.vals(), r * 9 + c, v)
        && s.board.same_givens(prev)
}

/// Each step is a forced placement on the board the previous step left.
pub open spec fn place_chain(board: Board, steps: Seq<Step>) -> bool {
    forall|k: int| 0 <= k < steps.len() ==> forced_place(prev_board(board, steps, k), #[trigger] steps[k])
}

/// Appending a forced placement on the last board extends the chain.
proof fn lemma_chain_push(board: Board, prev: Seq<Step>, s: Step)
    requires
        place_chain(board, prev),
        forced_place(final_board(board, prev), s),
    ensures
        place_chain(board, prev.push(s)),
        final_board(board, prev.push(s)) == s.board,
{
    let steps = prev.push(s);
    assert forall|k: int| 0 <= k < steps.len() implies forced_place(prev_board(board, steps, k), #[trigger] steps[k]) by {
        if k < prev.len() {
            assert(steps[k] == prev[k]);
            if k > 0 {
                assert(steps[k - 1] == prev[k - 1]);
            }
            assert(forced_place(prev_board(board, prev, k), prev[k]));
        } else {
            if k > 0 {
                assert(steps[k - 1] == prev[k - 1]);
            }
        }
    }
}

/// No logical rule places a digit on the puzzle `vals`.
pub open spec fn no_logical_single(vals: Seq<u8>) -> bool {
    &&& forall|i: int| 0 <= i < 81 ==> !#[trigger] board_naked_single(vals, i)
    &&& forall|u: int, d: int| 0 <= u < 27 && 1 <= d <= 9 ==> !#[trigger] board_hidden_single(vals, u, d)
    &&& forall|j: int| 0 <= j < 81 ==> !#[trigger] crate::reductions::reduces_to_single(vals, j)
}

/// `new` starts with all of `old`.
pub open spec fn keeps_prefix(old: Seq<Step>, new: Seq<Step>) -> bool {
    old.len() <= new.len() && forall|k: int| 0 <= k < old.len() ==> #[trigger] new[k] == old[k]
}

/// Every guess from position `from` on is numbered within the budget.
pub open spec fn guesses_within(steps: Seq<Step>, from: int, max: Option<usize>) -> bool {
    forall|k: int|
        from <= k < steps.len() && (#[trigger] steps[k]).kind is Guess ==> (max matches Some(m) ==> steps[k].index <= m)
}

/// `s` guesses, at the minimum-remaining-values cell of `b0`, its smallest
/// candidate, and shows `b0` with that digit placed.
pub open spec fn mrv_guess(b0: Board, s: Step) -> bool {
    s.kind matches StepKind::Guess { r, c, v } ==> {
        let i = r * 9 + c;
        &&& r < 9 && c < 9
        &&& mrv_choice(b0.vals(), i)
        &&& 1 <= v <= 9
        &&& allowed(b0.vals(), i, v as int)
        &&& forall|w: int| 1 <= w < v ==> !#[trigger] allowed(b0.vals(), i, w)
        &&& s.board.vals() == b0.vals().update(i, v)
        &&& s.board.same_givens(b0)
    }
}

/// The decimal character of a digit 0..=9.
fn digit_char(n: usize) -> (ch: char)
    requires
        n <= 9,
    ensures
        ch == crate::text::digit_to_char(n as nat),
{
    ((n as u8) + 48) as char
}

/// The text of `s` as a `String`.
pub(crate) fn owned(s: &str) -> (r: String)
    ensures
        r@ == s@,
{
    s.to_owned()
}

/// Commits digit `v` at (`r`, `c`).
pub fn apply_place(b: &mut Board, r: usize, c: usize, v: u8)
    requires
        r < 9,
        c < 9,
    ensures
        final(b).vals() == old(b).vals().update(r * 9 + c, v),
        forall|r2: int, c2: int| 0 <= r2 < 9 && 0 <= c2 < 9 ==> (#[trigger] final(b).cells@[r2]@[c2]).fixed == old(b).cells@[r2]@[c2].fixed,
{
    b.set_value(r * 9 + c, v);
}

/// Every solution of the puzzle `vals` has digit `v` at cell `i`.
pub open spec fn forced(vals: Seq<u8>, i: int, v: u8) -> bool {
    forall|sol: Seq<u8>| #[trigger] is_completion(sol, vals) ==> sol[i] == v
}

/// A placement that a deduction rule found: an empty cell and a digit that
/// every solution of the board has there.
pub open spec fn sound_placement(b: Board, p: Option<(usize, usize, u8, String)>) -> bool {
    p matches Some((r, c, v, _)) ==> r < 9 && c < 9 && 1 <= v <= 9 && b.vals()[r * 9 + c] == 0
        && allowed(b.vals(), r * 9 + c, v as int) && forced(b.vals(), r * 9 + c, v)
}

/// Empty cell `i` allows exactly one digit.
pub open spec fn board_naked_single(vals: Seq<u8>, i: int) -> bool {
    vals[i] == 0 && exists|v: int| 1 <= v <= 9 && #[trigger] allowed(vals, i, v) && forall|w: int|
        1 <= w <= 9 && w != v ==> !#[trigger] allowed(vals, i, w)
}

/// Digit `d` is allowed in exactly one empty cell of unit `u`.
pub open spec fn board_hidden_single(vals: Seq<u8>, u: int, d: int) -> bool {
    exists|k: int|
        0 <= k < 9 && vals[#[trigger] unit_cell(u, k)] == 0 && allowed(vals, unit_cell(u, k), d) && forall|j: int|
            0 <= j < 9 && vals[#[trigger] unit_cell(u, j)] == 0 && allowed(vals, unit_cell(u, j), d) ==> unit_cell(u, j)
                == unit_cell(u, k)
}

/// The rationale text of a hidden single in unit `u`.
pub open spec fn hidden_reason(u: int) -> Seq<char> {
    if u < 9 {
        "Hidden single in row "@.push(crate::text::digit_to_char((u + 1) as nat))
    } else if u < 18 {
        "Hidden single in col "@.push(crate::text::digit_to_char((u - 9 + 1) as nat))
    } else {
        "Hidden single in box ("@ + seq![
            crate::text::digit_to_char(((u - 18) / 3 + 1) as nat),
            ',',
            crate::text::digit_to_char(((u - 18) % 3 + 1) as nat),
            ')',
        ]
    }
}

/// Digit `v` is a hidden single of some unit holding cell `i`, and `reason`
/// names that unit.
pub open spec fn hidden_single_holds(vals: Seq<u8>, i: int, v: int, reason: Seq<char>) -> bool {
    exists|u: int| 0 <= u < 27 && in_unit(u, i) && #[trigger] board_hidden_single(vals, u, v) && reason == hidden_reason(u)
}

/// Naked single: the first empty cell in row-major order with exactly one
/// candidate, and that candidate.
pub fn find_naked_single(b: &Board) -> (p: Option<(usize, usize, u8, String)>)
    requires
        b.wf(),
    ensures
        sound_placement(*b, p),
        p matches Some((r, c, v, _)) ==> forall|w: int| 1 <= w <= 9 && w != v ==> !#[trigger] allowed(b.vals(), r * 9 + c, w),
        p is None ==> forall|i: int| 0 <= i < 81 ==> !#[trigger] board_naked_single(b.vals(), i),
        p matches Some((r, c, v, reason)) ==> board_naked_single(b.vals(), r * 9 + c) && reason@ == "Naked single"@
            && forall|j: int| 0 <= j < r * 9 + c ==> !#[trigger] board_naked_single(b.vals(), j),
{
    let mut r: usize = 0;
    while r < 9
        invariant
            r <= 9,
            b.wf(),
            forall|i: int| 0 <= i < r * 9 ==> !#[trigger] board_naked_single(b.vals(), i),
        decreases 9 - r,
    {
        let mut c: usize = 0;
        while c < 9
            invariant
                c <= 9,
                r < 9,
                b.wf(),
                forall|i: int| 0 <= i < r * 9 + c ==> !#[trigger] board_naked_single(b.vals(), i),
            decreases 9 - c,
        {
            let i = r * 9 + c;
            if b.at(i) == 0 {
                let cand = b.candidates(r, c);
                let mut cnt: usize = 0;
                let mut found: u8 = 0;
                let mut second: u8 = 0;
                let mut v: u8 = 1;
                while v <= 9
                    invariant
                        1 <= v <= 10,
                        i == r * 9 + c,
                        i < 81,
                        b.vals()[i as int] == 0,
                        forall|w: int| 0 <= w < 10 ==> #[trigger] cand@[w] == Board::cand_spec(b.vals(), i as int, w),
                        cnt <= 2,
                        cnt == 0 ==> forall|w: int| 1 <= w < v ==> !#[trigger] allowed(b.vals(), i as int, w),
                        cnt >= 1 ==> 1 <= found < v && allowed(b.vals(), i as int, found as int),
                        cnt == 1 ==> forall|w: int| 1 <= w < v && w != found ==> !#[trigger] allowed(b.vals(), i as int, w),
                        cnt == 2 ==> found < second < v && allowed(b.vals(), i as int, second as int),
                    decreases 10 - v,
                {
                    if cand[v as usize] {
                        if cnt == 0 {
                            found = v;
                            cnt = 1;
                        } else if cnt == 1 {
                            second = v;
                            cnt = 2;
                        }
                    }
                    v = v + 1;
                }
                proof {
                    if cnt != 1 && board_naked_single(b.vals(), i as int) {
                        let w = choose|w: int| 1 <= w <= 9 && #[trigger] allowed(b.vals(), i as int, w) && forall|x: int|
                            1 <= x <= 9 && x != w ==> !#[trigger] allowed(b.vals(), i as int, x);
                        if cnt == 2 {
                            assert(allowed(b.vals(), i as int, found as int));
                        }
                    }
                }
                if cnt == 1 {
                    proof {
                        assert forall|sol: Seq<u8>| #[trigger] is_completion(sol, b.vals()) implies sol[i as int] == found by {
                            lemma_completion_allowed(sol, b.vals(), i as int);
                        }
                    }
                    return Some((r, c, found, owned("Naked single")));
                }
            }
            c = c + 1;
        }
        r = r + 1;
    }
    None
}

/// The only empty cell of unit `u` where `d` is allowed.
fn sole_cell(b: &Board, u: usize, d: u8) -> (r: Option<usize>)
    requires
        b.wf(),
        u < 27,
        1 <= d <= 9,
    ensures
        r matches Some(i) ==> i < 81 && in_unit(u as int, i as int) && b.vals()[i as int] == 0
            && allowed(b.vals(), i as int, d as int)
            && forall|k: int| 0 <= k < 9 && b.vals()[#[trigger] unit_cell(u as int, k)] == 0
                && allowed(b.vals(), unit_cell(u as int, k), d as int) ==> unit_cell(u as int, k) == i,
        r is None ==> !board_hidden_single(b.vals(), u as int, d as int),
{
    let mut cnt: usize = 0;
    let mut found: usize = 0;
    let mut other: usize = 0;
    let mut kf: usize = 0;
    let mut k: usize = 0;
    while k < 9
        invariant
            k <= 9,
            u < 27,
            1 <= d <= 9,
            cnt <= 2,
            cnt >= 1 ==> found < 81 && in_unit(u as int, found as int) && b.vals()[found as int] == 0
                && allowed(b.vals(), found as int, d as int),
            cnt == 1 ==> forall|j: int| 0 <= j < k && b.vals()[#[trigger] unit_cell(u as int, j)] == 0
                && allowed(b.vals(), unit_cell(u as int, j), d as int) ==> unit_cell(u as int, j) == found,
            cnt == 0 ==> forall|j: int| 0 <= j < k ==> !(b.vals()[#[trigger] unit_cell(u as int, j)] == 0
                && allowed(b.vals(), unit_cell(u as int, j), d as int)),
            cnt >= 1 ==> kf < k && found == unit_cell(u as int, kf as int),
            cnt == 2 ==> kf < other < k && b.vals()[unit_cell(u as int, other as int)] == 0
                && allowed(b.vals(), unit_cell(u as int, other as int), d as int),
        decreases 9 - k,
    {
        let i = unit_cell_idx(u, k);
        if b.at(i) == 0 && b.digit_allowed(i, d) {
            if cnt == 0 {
                found = i;
                kf = k;
                cnt = 1;
            } else if cnt == 1 {
                other = k;
                cnt = 2;
            }
        }
        k = k + 1;
    }
    if cnt == 1 {
        Some(found)
    } else {
        proof {
            if board_hidden_single(b.vals(), u as int, d as int) {
                let kk = choose|kk: int|
                    0 <= kk < 9 && b.vals()[#[trigger] unit_cell(u as int, kk)] == 0 && allowed(b.vals(), unit_cell(u as int, kk), d as int)
                        && forall|j: int| 0 <= j < 9 && b.vals()[#[trigger] unit_cell(u as int, j)] == 0 && allowed(b.vals(), unit_cell(u as int, j), d as int)
                            ==> unit_cell(u as int, j) == unit_cell(u as int, kk);
                assert(b.vals()[unit_cell(u as int, kk)] == 0);
                if cnt == 2 {
                    lemma_unit_cell(u as int, kf as int);
                    assert(unit_cell(u as int, other as int) == unit_cell(u as int, kk));
                    assert(unit_cell(u as int, kf as int) == unit_cell(u as int, kk));
                }
            }
        }
        None
    }
}

/// A digit that only one empty cell of a unit allows is forced there.
proof fn lemma_forced_in_unit(vals: Seq<u8>, u: int, d: int, p: int)
    requires
        vals.len() == 81,
        0 <= u < 27,
        1 <= d <= 9,
        in_unit(u, p),
        vals[p] == 0,
        allowed(vals, p, d),
        forall|k: int| 0 <= k < 9 && vals[#[trigger] unit_cell(u, k)] == 0 && allowed(vals, unit_cell(u, k), d) ==> unit_cell(u, k) == p,
    ensures
        forced(vals, p, d as u8),
{
    assert forall|sol: Seq<u8>| #[trigger] is_completion(sol, vals) implies sol[p] == d as u8 by {
        let k = lemma_unit_has_digit(sol, u, d);
        lemma_unit_cell(u, k);
        let c = unit_cell(u, k);
        if vals[c] != 0 {
            assert(vals[c] == sol[c]);
            assert(c != p);
            assert(peer(p, c));
        } else {
            lemma_completion_allowed(sol, vals, c);
        }
    }
}

/// Hidden single: the first unit (rows, then columns, then boxes) and digit
/// that only one empty cell of the unit allows, and that cell.
pub fn find_hidden_single(b: &Board) -> (p: Option<(usize, usize, u8, String)>)
    requires
        b.wf(),
    ensures
        sound_placement(*b, p),
        p matches Some((r, c, v, reason)) ==> hidden_single_holds(b.vals(), r as int * 9 + c as int, v as int, reason@),
        p is None ==> forall|u: int, d: int| 0 <= u < 27 && 1 <= d <= 9 ==> !#[trigger] board_hidden_single(b.vals(), u, d),
{
    let mut u: usize = 0;
    while u < 27
        invariant
            u <= 27,
            b.wf(),
            forall|u2: int, d2: int| 0 <= u2 < u && 1 <= d2 <= 9 ==> !#[trigger] board_hidden_single(b.vals(), u2, d2),
        decreases 27 - u,
    {
        let mut d: u8 = 1;
        while d <= 9
            invariant
                1 <= d <= 10,
                u < 27,
                b.wf(),
                forall|u2: int, d2: int| 0 <= u2 < u && 1 <= d2 <= 9 ==> !#[trigger] board_hidden_single(b.vals(), u2, d2),
                forall|d2: int| 1 <= d2 < d ==> !#[trigger] board_hidden_single(b.vals(), u as int, d2),
            decreases 10 - d,
        {
            if let Some(i) = sole_cell(b, u, d) {
                proof {
                    lemma_forced_in_unit(b.vals(), u as int, d as int, i as int);
                    let k = crate::units::lemma_unit_pos(u as int, i as int);
                    assert(board_hidden_single(b.vals(), u as int, d as int));
                    assert((i / 9) * 9 + i % 9 == i);
                }
                let mut text: Vec<char> = Vec::new();
                if u < 9 {
                    push_text(&mut text, "Hidden single in row ");
                    text.push(digit_char(u + 1));
                } else if u < 18 {
                    push_text(&mut text, "Hidden single in col ");
                    text.push(digit_char(u - 9 + 1));
                } else {
                    push_text(&mut text, "Hidden single in box (");
                    text.push(digit_char((u - 18) / 3 + 1));
                    text.push(',');
                    text.push(digit_char((u - 18) % 3 + 1));
                    text.push(')');
                }
                let reason = crate::grid::string_from_chars(&text);
                proof {
                    let rr = (i / 9) as int;
                    let cc = (i % 9) as int;
                    assert(rr * 9 + cc == i as int);
                    assert(in_unit(u as int, rr * 9 + cc));
                    assert(text@ =~= hidden_reason(u as int));
                    assert(hidden_single_holds(b.vals(), rr * 9 + cc, d as int, reason@));
                }
                return Some((i / 9, i % 9, d, reason));
            }
            d = d + 1;
        }
        u = u + 1;
    }
    None
}

/// Whether some empty cell has no candidate.
fn any_zero_candidate(b: &Board) -> (r: bool)
    requires
        b.wf(),
    ensures
        r == stuck(b.vals()),
{
    let mut i: usize = 0;
    while i < 81
        invariant
            i <= 81,
            b.wf(),
            forall|k: int| 0 <= k < i && #[trigger] b.vals()[k] == 0 ==> exists|d: int| 1 <= d <= 9 && #[trigger] allowed(b.vals(), k, d),
        decreases 81 - i,
    {
        if b.at(i) == 0 {
            let n = candidate_count(b, i);
            proof {
                lemma_allowed_count_zero(b.vals(), i as int, 10);
            }
            if n == 0 {
                return true;
            }
        }
        i = i + 1;
    }
    false
}

/// No digit below `n` is allowed exactly when the count below `n` is zero.
proof fn lemma_allowed_count_zero(vals: Seq<u8>, i: int, n: int)
    requires
        1 <= n <= 10,
    ensures
        (allowed_below(vals, i, n) == 0) <==> forall|d: int| 1 <= d < n ==> !#[trigger] allowed(vals, i, d),
    decreases n,
{
    if n > 1 {
        lemma_allowed_count_zero(vals, i, n - 1);
    }
}

/// Backtracking with minimum remaining values, recording each guess and
/// each undo.
pub struct BacktrackingSolver;

/// Under a budget of `m`, a run that starts at step count `from` within the
/// budget ends at most `extra` steps past it.
pub open spec fn steps_bounded(max: Option<usize>, from: int, to: int, extra: int) -> bool {
    match max {
        Some(m) => from <= m ==> to <= m + extra,
        None => true,
    }
}

/// The step budget is used up.
pub open spec fn exhausted(max: Option<usize>, idx: usize) -> bool {
    (max matches Some(m) && idx >= m) || idx >= usize::MAX - 1
}

impl BacktrackingSolver {
    pub fn new() -> BacktrackingSolver {
        BacktrackingSolver
    }

    /// Solves a copy of `board`: the steps taken and, when the search
    /// succeeded, the solved board. The search succeeds exactly when the
    /// puzzle has a solution, unless the step budget ran out first.
    pub fn solve_board(&self, board: &Board, max_steps: Option<usize>) -> (r: (Vec<Step>, Option<Board>))
        requires
            board.wf(),
        ensures
            numbered(r.0@),
            r.1 matches Some(s) ==> s.complete() && is_completion(s.vals(), board.vals()) && s.same_givens(*board),
            r.1 is None ==> !solvable(board.vals()) || exhausted(max_steps, r.0@.len() as usize),
            self.outcome(*board, max_steps, r.0@),
    {
        let mut b = *board;
        let mut steps: Vec<Step> = Vec::new();
        let mut idx: usize = 0;
        let solved = backtrack_steps(&mut b, &mut steps, &mut idx, max_steps);
        if solved {
            (steps, Some(b))
        } else {
            (steps, None)
        }
    }
}

/// One level of the recorded backtracking search.
fn backtrack_steps(b: &mut Board, steps: &mut Vec<Step>, idx: &mut usize, max: Option<usize>) -> (ok: bool)
    requires
        old(b).wf(),
        numbered(old(steps)@),
        old(steps)@.len() == *old(idx),
    ensures
        final(b).wf(),
        numbered(final(steps)@),
        final(steps)@.len() == *final(idx),
        *final(idx) >= *old(idx),
        ok ==> final(b).complete() && is_completion(final(b).vals(), old(b).vals()),
        !ok ==> final(b).vals() == old(b).vals() && (!solvable(old(b).vals()) || exhausted(max, *final(idx))),
        final(b).same_givens(*old(b)),
        keeps_prefix(old(steps)@, final(steps)@),
        guesses_within(final(steps)@, old(steps)@.len() as int, max),
        ok && final(steps)@.len() > old(steps)@.len() ==> final(steps)@.last().kind is Guess && final(steps)@.last().board
            == *final(b),
        ok && final(steps)@.len() == old(steps)@.len() ==> old(b).complete() && *final(b) == *old(b),
        !old(b).complete() && final(steps)@.len() > old(steps)@.len() ==> mrv_guess(*old(b), final(steps)@[old(steps)@.len() as int]),
        !old(b).complete() && final(steps)@.len() > old(steps)@.len() ==> final(steps)@[old(steps)@.len() as int].kind is Guess,
        steps_bounded(max, *old(idx) as int, *final(idx) as int, empty_count(old(b).vals()) as int),
        !all_filled(old(b).vals()) && !stuck(old(b).vals()) && !exhausted(max, *old(idx)) ==> final(steps)@.len() > old(steps)@.len(),
    decreases empty_count(old(b).vals()),
{
    let ghost vals = b.vals();
    let ghost b0 = *b;
    let ghost s0 = steps@;
    if b.is_solved() {
        proof {
            assert(is_completion(vals, vals));
        }
        return true;
    }
    if exhausted_now(max, *idx) {
        return false;
    }
    let (r, c) = match find_next_mrv(b) {
        Some(p) => p,
        None => {
            proof {
                lemma_full_board(vals);
            }
            return false;
        },
    };
    let i = r * 9 + c;
    let cand = b.candidates(r, c);
    proof {
        lemma_fill_decreases(vals, i as int, 1u8);
    }
    let mut v: u8 = 1;
    while v <= 9
        invariant
            1 <= v <= 10,
            r < 9,
            c < 9,
            i == r * 9 + c,
            vals == old(b).vals(),
            vals[i as int] == 0,
            b.wf(),
            b.vals() == vals,
            numbered(steps@),
            steps@.len() == *idx,
            *idx >= *old(idx),
            forall|w: int| 0 <= w < 10 ==> #[trigger] cand@[w] == Board::cand_spec(vals, i as int, w),
            forall|sol: Seq<u8>| #[trigger] is_completion(sol, vals) ==> sol[i as int] >= v,
            b0 == *old(b),
            s0 == old(steps)@,
            !b0.complete(),
            mrv_choice(vals, i as int),
            b.same_givens(b0),
            keeps_prefix(s0, steps@),
            guesses_within(steps@, s0.len() as int, max),
            !exhausted(max, *idx),
            steps@.len() == s0.len() ==> forall|w: int| 1 <= w < v ==> !#[trigger] allowed(vals, i as int, w),
            steps@.len() > s0.len() ==> mrv_guess(b0, steps@[s0.len() as int]),
            steps@.len() > s0.len() ==> steps@[s0.len() as int].kind is Guess,
            max matches Some(m) ==> *idx <= m,
            empty_count(vals) >= 1,
        decreases 10 - v,
    {
        if cand[v as usize] {
            if *idx >= usize::MAX - 1 {
                return false;
            }
            apply_place(b, r, c, v);
            *idx = *idx + 1;
            let ghost prev = steps@;
            steps.push(Step { index: *idx, kind: StepKind::Guess { r, c, v }, board: *b });
            let ghost snap = *b;
            proof {
                assert(snap.same_givens(b0));
                assert forall|k: int| 0 <= k < prev.len() implies #[trigger] steps@[k] == prev[k] by {}
                assert(keeps_prefix(s0, steps@)) by {
                    assert forall|k: int| 0 <= k < s0.len() implies #[trigger] steps@[k] == s0[k] by {
                        assert(steps@[k] == prev[k]);
                    }
                }
                assert(guesses_within(steps@, s0.len() as int, max)) by {
                    assert forall|k: int| s0.len() <= k < steps@.len() && (#[trigger] steps@[k]).kind is Guess implies (max matches Some(m) ==> steps@[k].index <= m) by {
                        if k < prev.len() {
                            assert(steps@[k] == prev[k]);
                        }
                    }
                }
                if prev.len() == s0.len() {
                    assert(steps@[s0.len() as int] == steps@.last());
                    assert(mrv_guess(b0, steps@[s0.len() as int]));
                } else {
                    assert(steps@[s0.len() as int] == prev[s0.len() as int]);
                }
                lemma_fill_decreases(vals, i as int, v);
                assert forall|k: int| 0 <= k < 81 implies #[trigger] b.vals()[k] <= 9 by {
                    assert(b.vals()[k] == vals.update(i as int, v)[k]);
                }
                assert forall|k: int| 0 <= k < steps@.len() implies #[trigger] steps@[k].index == k + 1 by {
                    if k < prev.len() {
                        assert(steps@[k] == prev[k]);
                    }
                }
            }
            let ghost placed = b.vals();
            let ghost mid = steps@;
            let mut ok = false;
            if b.is_valid() {
                if !any_zero_candidate(b) {
                    ok = backtrack_steps(b, steps, idx, max);
                }
            }
            proof {
                assert(keeps_prefix(s0, steps@)) by {
                    assert forall|k: int| 0 <= k < s0.len() implies #[trigger] steps@[k] == s0[k] by {
                        assert(steps@[k] == mid[k]);
                    }
                }
                assert(guesses_within(steps@, s0.len() as int, max)) by {
                    assert forall|k: int| s0.len() <= k < steps@.len() && (#[trigger] steps@[k]).kind is Guess implies (max matches Some(m) ==> steps@[k].index <= m) by {
                        if k < mid.len() {
                            assert(steps@[k] == mid[k]);
                        }
                    }
                }
                assert(steps@[s0.len() as int] == mid[s0.len() as int]);
            }
            if ok {
                proof {
                    assert forall|k: int| 0 <= k < 81 && #[trigger] vals[k] != 0 implies b.vals()[k] == vals[k] by {
                        assert(placed[k] == vals[k]);
                    }
                    if steps@.len() == mid.len() {
                        assert(steps@.last() == mid.last());
                    }
                }
                return true;
            }
            proof {
                if !exhausted(max, *idx) {
                    if !no_conflict(placed) || stuck(placed) {
                        crate::solver::lemma_unsolvable(placed);
                    }
                    assert(!solvable(placed));
                    assert forall|sol: Seq<u8>| #[trigger] is_completion(sol, vals) implies sol[i as int] != v by {
                        if sol[i as int] == v {
                            lemma_completion_update(sol, vals, i as int, v);
                        }
                    }
                }
            }
            apply_place(b, r, c, 0);
            proof {
                assert(b.vals() =~= vals);
            }
            if *idx >= usize::MAX - 1 {
                return false;
            }
            *idx = *idx + 1;
            let ghost prev2 = steps@;
            steps.push(Step { index: *idx, kind: StepKind::Backtrack, board: *b });
            proof {
                assert(keeps_prefix(s0, steps@)) by {
                    assert forall|k: int| 0 <= k < s0.len() implies #[trigger] steps@[k] == s0[k] by {
                        assert(steps@[k] == prev2[k]);
                    }
                }
                assert(guesses_within(steps@, s0.len() as int, max)) by {
                    assert forall|k: int| s0.len() <= k < steps@.len() && (#[trigger] steps@[k]).kind is Guess implies (max matches Some(m) ==> steps@[k].index <= m) by {
                        if k < prev2.len() {
                            assert(steps@[k] == prev2[k]);
                        }
                    }
                }
                assert(steps@[s0.len() as int] == prev2[s0.len() as int]);
                assert forall|k: int| 0 <= k < steps@.len() implies #[trigger] steps@[k].index == k + 1 by {
                    if k < prev2.len() {
                        assert(steps@[k] == prev2[k]);
                    }
                }
            }
            if exhausted_now(max, *idx) {
                return false;
            }
        } else {
            proof {
                assert forall|sol: Seq<u8>| #[trigger] is_completion(sol, vals) implies sol[i as int] != v by {
                    lemma_completion_allowed(sol, vals, i as int);
                }
            }
        }
        v = v + 1;
    }
    proof {
        if steps@.len() == s0.len() {
            assert(stuck(vals)) by {
                assert(vals[i as int] == 0 && forall|d: int| 1 <= d <= 9 ==> !allowed(vals, i as int, d));
            }
        }
    }
    false
}

/// Whether the step budget is used up.
fn exhausted_now(max: Option<usize>, idx: usize) -> (r: bool)
    ensures
        r == exhausted(max, idx),
{
    match max {
        Some(m) => idx >= m || idx >= usize::MAX - 1,
        None => idx >= usize::MAX - 1,
    }
}


impl Solver for BacktrackingSolver {
    fn name(&self) -> &'static str {
        "Backtracking"
    }

    /// On a solvable, unsolved puzzle whose search stayed within the budget,
    /// the last step is a guess whose board solves the puzzle and keeps its
    /// givens; no guess goes past the budget, and a budget of `m` allows at
    /// most `m` steps plus one undo per empty cell; on an unfilled board
    /// where every empty cell has a candidate, the first step guesses the
    /// smallest candidate of the minimum-remaining-values cell.
    open spec fn outcome(&self, board: Board, max_steps: Option<usize>, steps: Seq<Step>) -> bool {
        &&& solvable(board.vals()) && !board.complete() && !exhausted(max_steps, steps.len() as usize) ==> {
            &&& steps.len() > 0
            &&& steps.last().kind is Guess
            &&& steps.last().board.complete()
            &&& is_completion(steps.last().board.vals(), board.vals())
            &&& steps.last().board.same_givens(board)
        }
        &&& guesses_within(steps, 0, max_steps)
        &&& !board.complete() && steps.len() > 0 ==> mrv_guess(board, steps[0])
        &&& steps_bounded(max_steps, 0, steps.len() as int, empty_count(board.vals()) as int)
        &&& !all_filled(board.vals()) && !stuck(board.vals()) && !exhausted(max_steps, 0) ==> steps.len() > 0
            && steps[0].kind is Guess
    }

    fn solve_steps(&mut self, board: &Board, max_steps: Option<usize>) -> (steps: Vec<Step>) {
        let (steps, _) = self.solve_board(board, max_steps);
        steps
    }
}

/// A brute-force backtracker: empty cells in row-major order, digits tried
/// from 9 down to 1, a digit kept while the board stays valid.
pub struct BacktracingBruteSolver;

impl BacktracingBruteSolver {
    pub fn new() -> BacktracingBruteSolver {
        BacktracingBruteSolver
    }

    /// Searches a copy of `board`: a solution of the puzzle, or `None`
    /// exactly when it has none.
    pub fn solve_to_completion(&mut self, board: &Board) -> (r: Option<Board>)
        requires
            board.wf(),
        ensures
            r matches Some(s) ==> s.complete() && is_completion(s.vals(), board.vals()) && s.same_givens(*board),
            r is None <==> !solvable(board.vals()),
    {
        let mut b = *board;
        if brute(&mut b) {
            Some(b)
        } else {
            None
        }
    }
}

fn brute(b: &mut Board) -> (ok: bool)
    requires
        old(b).wf(),
    ensures
        final(b).wf(),
        ok ==> final(b).complete() && is_completion(final(b).vals(), old(b).vals()),
        !ok ==> final(b).vals() == old(b).vals() && !solvable(old(b).vals()),
        final(b).same_givens(*old(b)),
    decreases empty_count(old(b).vals()),
{
    let ghost vals = b.vals();
    match b.find_empty() {
        None => {
            proof {
                lemma_full_board(vals);
            }
            if b.is_valid() {
                proof {
                    assert(is_completion(vals, vals));
                }
                true
            } else {
                false
            }
        },
        Some(i) => {
            let mut v: u8 = 9;
            while v >= 1
                invariant
                    v <= 9,
                    i < 81,
                    vals == old(b).vals(),
                    vals[i as int] == 0,
                    b.wf(),
                    b.vals() == vals,
                    b.same_givens(*old(b)),
                    forall|sol: Seq<u8>| #[trigger] is_completion(sol, vals) ==> sol[i as int] <= v,
                decreases v,
            {
                b.set_value(i, v);
                let ghost placed = b.vals();
                proof {
                    lemma_fill_decreases(vals, i as int, v);
                    assert forall|k: int| 0 <= k < 81 implies #[trigger] b.vals()[k] <= 9 by {
                        assert(b.vals()[k] == vals.update(i as int, v)[k]);
                    }
                }
                let mut ok = false;
                if b.is_valid() {
                    ok = brute(b);
                }
                if ok {
                    proof {
                        assert forall|k: int| 0 <= k < 81 && #[trigger] vals[k] != 0 implies b.vals()[k] == vals[k] by {
                            assert(placed[k] == vals[k]);
                        }
                    }
                    return true;
                }
                proof {
                    if !no_conflict(placed) {
                        crate::solver::lemma_unsolvable(placed);
                    }
                    assert forall|sol: Seq<u8>| #[trigger] is_completion(sol, vals) implies sol[i as int] <= v - 1 by {
                        if sol[i as int] == v {
                            lemma_completion_update(sol, vals, i as int, v);
                        }
                    }
                }
                b.set_value(i, 0);
                proof {
                    assert(b.vals() =~= vals);
                }
                v = v - 1;
            }
            proof {
                assert forall|sol: Seq<u8>| !#[trigger] is_completion(sol, vals) by {
                    if is_completion(sol, vals) {
                        assert(sol[i as int] >= 1);
                    }
                }
            }
            false
        },
    }
}

proof fn lemma_empty_below_bound(vals: Seq<u8>, n: int)
    requires
        0 <= n <= vals.len(),
    ensures
        crate::grid::empty_below(vals, n) <= n,
    decreases n,
{
    if n > 0 {
        lemma_empty_below_bound(vals, n - 1);
    }
}

/// Places forced digits one at a time, reporting each.
pub struct LogicalSolver;

impl LogicalSolver {
    pub fn new() -> LogicalSolver {
        LogicalSolver
    }

    /// Places forced digits, by the rules in priority order, until the board
    /// is solved, no rule applies, or `max_steps` steps were taken. Returns
    /// the steps and the final board, which keeps the input's digits and has
    /// exactly the same solutions.
    #[verifier::rlimit(40)]
    pub fn solve_board(&self, board: &Board, max_steps: Option<usize>) -> (r: (Vec<Step>, Board))
        requires
            board.wf(),
        ensures
            numbered(r.0@),
            r.1.wf(),
            forall|i: int| 0 <= i < 81 && #[trigger] board.vals()[i] != 0 ==> r.1.vals()[i] == board.vals()[i],
            forall|sol: Seq<u8>| #[trigger] is_completion(sol, board.vals()) <==> is_completion(sol, r.1.vals()),
            max_steps matches Some(m) ==> r.0@.len() <= m,
            r.1.complete() || (max_steps matches Some(m) && r.0@.len() == m) || no_logical_single(r.1.vals()),
            r.1 == final_board(*board, r.0@),
            self.outcome(*board, max_steps, r.0@),
    {
        let mut b = *board;
        let mut steps: Vec<Step> = Vec::new();
        let mut idx: usize = 0;
        proof {
            lemma_empty_below_bound(b.vals(), 81);
        }
        while !b.is_solved()
            invariant
                b.wf(),
                numbered(steps@),
                steps@.len() == idx,
                idx + empty_count(b.vals()) == empty_count(board.vals()),
                empty_count(board.vals()) <= 81,
                max_steps matches Some(m) ==> idx <= m,
                forall|i: int| 0 <= i < 81 && #[trigger] board.vals()[i] != 0 ==> b.vals()[i] == board.vals()[i],
                forall|sol: Seq<u8>| #[trigger] is_completion(sol, board.vals()) <==> is_completion(sol, b.vals()),
                place_chain(*board, steps@),
                b == final_board(*board, steps@),
            ensures
                b.wf(),
                numbered(steps@),
                steps@.len() == idx,
                max_steps matches Some(m) ==> idx <= m,
                forall|i: int| 0 <= i < 81 && #[trigger] board.vals()[i] != 0 ==> b.vals()[i] == board.vals()[i],
                forall|sol: Seq<u8>| #[trigger] is_completion(sol, board.vals()) <==> is_completion(sol, b.vals()),
                b.complete() || (max_steps matches Some(m) && idx == m) || no_logical_single(b.vals()),
                place_chain(*board, steps@),
                b == final_board(*board, steps@),
            decreases empty_count(b.vals()),
        {
            if let Some(m) = max_steps {
                if idx >= m {
                    break;
                }
            }
            let mut found = find_naked_single(&b);
            if found.is_none() {
                found = find_hidden_single(&b);
            }
            if found.is_none() {
                found = crate::reductions::find_single_after_reductions(&b);
            }
            match found {
                None => {
                    break;
                },
                Some((r, c, v, reason)) => {
                    let ghost before = b.vals();
                    let ghost bb = b;
                    let i = r * 9 + c;
                    apply_place(&mut b, r, c, v);
                    proof {
                        lemma_fill_decreases(before, i as int, v);
                        assert forall|k: int| 0 <= k < 81 implies #[trigger] b.vals()[k] <= 9 by {
                            assert(b.vals()[k] == before.update(i as int, v)[k]);
                        }
                        assert forall|k: int| 0 <= k < 81 && #[trigger] board.vals()[k] != 0 implies b.vals()[k] == board.vals()[k] by {
                            assert(before[k] != 0);
                        }
                        assert forall|sol: Seq<u8>| #[trigger] is_completion(sol, board.vals()) <==> is_completion(sol, b.vals()) by {
                            lemma_completion_update(sol, before, i as int, v);
                        }
                    }
                    idx = idx + 1;
                    let ghost prev = steps@;
                    steps.push(Step { index: idx, kind: StepKind::Place { r, c, v, reason }, board: b });
                    proof {
                        assert forall|k: int| 0 <= k < steps@.len() implies #[trigger] steps@[k].index == k + 1 by {
                            if k < prev.len() {
                                assert(steps@[k] == prev[k]);
                            }
                        }
                        assert(steps@ == prev.push(steps@.last()));
                        assert(forced_place(bb, steps@.last()));
                        lemma_chain_push(*board, prev, steps@.last());
                    }
                },
            }
        }
        (steps, b)
    }
}

impl Solver for LogicalSolver {
    fn name(&self) -> &'static str {
        "Logical"
    }

    /// Each step is a forced placement on the board the previous step left,
    /// no more steps than the budget, and the run stops only when the board
    /// is solved, the budget is used up, or no rule places a digit.
    open spec fn outcome(&self, board: Board, max_steps: Option<usize>, steps: Seq<Step>) -> bool {
        let last = final_board(board, steps);
        &&& place_chain(board, steps)
        &&& max_steps matches Some(m) ==> steps.len() <= m
        &&& last.complete() || (max_steps matches Some(m) && steps.len() == m) || no_logical_single(last.vals())
    }

    fn solve_steps(&mut self, board: &Board, max_steps: Option<usize>) -> (steps: Vec<Step>) {
        let (steps, _) = self.solve_board(board, max_steps);
        steps
    }
}

} // verus!

//! Puzzle generation: a random solved grid, then clue removal that keeps the
//! solution unique, checked by bounded solution counting.
use vstd::prelude::*;
use rand::rngs::StdRng;
use crate::board::Board;
use crate::grid::{all_filled, allowed, empty_count, lemma_fill_decreases, no_conflict};
use crate::random::{rng_from_entropy, rng_from_seed, shuffle};
use crate::solver::{is_completion, solvable};

verus! {

/// `found` lists `n` distinct solutions of the puzzle `vals`, and when `n`
/// is below `limit` it lists all of them: `n` is the number of solutions,
/// capped at `limit`.
pub open spec fn counted(vals: Seq<u8>, found: Seq<Seq<u8>>, n: int, limit: int) -> bool {
    &&& found.len() == n
    &&& forall|k: int| 0 <= k < found.len() ==> is_completion(#[trigger] found[k], vals)
    &&& forall|a: int, b: int| 0 <= a < found.len() && 0 <= b < found.len() && a != b ==> #[trigger] found[a] != #[trigger] found[b]
    &&& n < limit ==> forall|sol: Seq<u8>| #[trigger] is_completion(sol, vals) ==> found.contains(sol)
}

/// The puzzle `vals` has exactly one solution, `sol`.
pub open spec fn unique_solution(vals: Seq<u8>, sol: Seq<u8>) -> bool {
    &&& is_completion(sol, vals)
    &&& forall|s2: Seq<u8>| #[trigger] is_completion(s2, vals) ==> s2 == sol
}

/// Number of filled cells.
pub open spec fn clue_count(vals: Seq<u8>) -> int {
    81 - empty_count(vals)
}

/// When a solution count capped at two comes out as one, the puzzle has a
/// unique solution.
pub proof fn lemma_count_one_unique(vals: Seq<u8>, found: Seq<Seq<u8>>)
    requires
        counted(vals, found, 1, 2),
    ensures
        unique_solution(vals, found[0]),
{
    assert forall|s2: Seq<u8>| #[trigger] is_completion(s2, vals) implies s2 == found[0] by {
        assert(found.contains(s2));
    }
}


impl Board {
    /// Sets the digit of cell `i`, leaving every given flag alone.
    pub(crate) fn set_value(&mut self, i: usize, v: u8)
        requires
            i < 81,
        ensures
            final(self).vals() == old(self).vals().update(i as int, v),
            forall|r: int, c: int| 0 <= r < 9 && 0 <= c < 9 ==> (#[trigger] final(self).cells@[r]@[c]).fixed == old(self).cells@[r]@[c].fixed,
    {
        let ghost b0 = *self;
        self.cells[i / 9][i % 9].value = v;
        proof {
            assert forall|j: int| 0 <= j < 81 implies #[trigger] self.vals()[j] == b0.vals().update(i as int, v)[j] by {
                if j != i {
                    assert(j == (j / 9) * 9 + j % 9);
                    assert(i == (i / 9) * 9 + i % 9);
                }
            }
            assert(self.vals() =~= b0.vals().update(i as int, v));
        }
    }

    /// Marks exactly the filled cells as given.
    fn mark_givens(&mut self)
        ensures
            final(self).vals() == old(self).vals(),
            forall|r: int, c: int| 0 <= r < 9 && 0 <= c < 9 ==> (#[trigger] final(self).cells@[r]@[c]).fixed == (final(self).cells@[r]@[c].value != 0),
    {
        let ghost b0 = *self;
        let mut r: usize = 0;
        while r < 9
            invariant
                r <= 9,
                forall|r2: int, c2: int| 0 <= r2 < 9 && 0 <= c2 < 9 ==> (#[trigger] self.cells@[r2]@[c2]).value == b0.cells@[r2]@[c2].value,
                forall|r2: int, c2: int| 0 <= r2 < r && 0 <= c2 < 9 ==> (#[trigger] self.cells@[r2]@[c2]).fixed == (self.cells@[r2]@[c2].value != 0),
            decreases 9 - r,
        {
            let mut c: usize = 0;
            while c < 9
                invariant
                    r < 9,
                    c <= 9,
                    forall|r2: int, c2: int| 0 <= r2 < 9 && 0 <= c2 < 9 ==> (#[trigger] self.cells@[r2]@[c2]).value == b0.cells@[r2]@[c2].value,
                    forall|r2: int, c2: int| 0 <= r2 < r && 0 <= c2 < 9 ==> (#[trigger] self.cells@[r2]@[c2]).fixed == (self.cells@[r2]@[c2].value != 0),
                    forall|c2: int| 0 <= c2 < c ==> (#[trigger] self.cells@[r as int]@[c2]).fixed == (self.cells@[r as int]@[c2].value != 0),
                decreases 9 - c,
            {
                let v = self.cells[r][c].value;
                self.cells[r][c].fixed = v != 0;
                c = c + 1;
            }
            r = r + 1;
        }
        assert(self.vals() =~= b0.vals());
    }

    /// Index of the first empty cell in row-major order.
    pub(crate) fn find_empty(&self) -> (r: Option<usize>)
        ensures
            r matches Some(i) ==> i < 81 && self.vals()[i as int] == 0,
            r is None ==> all_filled(self.vals()),
    {
        let mut i: usize = 0;
        while i < 81
            invariant
                i <= 81,
                forall|k: int| 0 <= k < i ==> #[trigger] self.vals()[k] != 0,
            decreases 81 - i,
        {
            if self.cells[i / 9][i % 9].value == 0 {
                return Some(i);
            }
            i = i + 1;
        }
        None
    }
}

/// A full, conflict-free board is its own only solution.
pub proof fn lemma_full_board(vals: Seq<u8>)
    requires
        vals.len() == 81,
        all_filled(vals),
        forall|i: int| 0 <= i < 81 ==> #[trigger] vals[i] <= 9,
    ensures
        no_conflict(vals) ==> unique_solution(vals, vals),
        !no_conflict(vals) ==> !solvable(vals),
{
    assert forall|s2: Seq<u8>| #[trigger] is_completion(s2, vals) implies s2 == vals by {
        assert forall|i: int| 0 <= i < 81 implies s2[i] == vals[i] by {
            assert(vals[i] != 0);
        }
        assert(s2 =~= vals);
    }
}

/// A solution of a puzzle puts in each empty cell a digit allowed there.
pub proof fn lemma_completion_allowed(sol: Seq<u8>, vals: Seq<u8>, i: int)
    requires
        is_completion(sol, vals),
        vals.len() == 81,
        0 <= i < 81,
        vals[i] == 0,
    ensures
        allowed(vals, i, sol[i] as int),
{
    assert forall|j: int| #[trigger] crate::grid::peer(i, j) implies vals[j] != sol[i] as int by {
        if vals[j] != 0 {
            assert(sol[j] == vals[j]);
        }
    }
}

/// Solutions of a puzzle with digit `d` committed at empty cell `i` are
/// exactly its solutions with `d` there.
pub proof fn lemma_completion_update(sol: Seq<u8>, vals: Seq<u8>, i: int, d: u8)
    requires
        vals.len() == 81,
        0 <= i < 81,
        vals[i] == 0,
        d != 0,
    ensures
        is_completion(sol, vals.update(i, d)) <==> is_completion(sol, vals) && sol[i] == d,
{
    if is_completion(sol, vals.update(i, d)) {
        assert forall|j: int| 0 <= j < 81 && #[trigger] vals[j] != 0 implies sol[j] == vals[j] by {
            assert(vals.update(i, d)[j] == vals[j]);
        }
        assert(vals.update(i, d)[i] == d);
    }
}

/// Counts the solutions of `b`, stopping at `limit`. The board is restored.
fn backtrack(b: &mut Board, count: usize, limit: usize) -> (res: (usize, Ghost<Seq<Seq<u8>>>))
    requires
        old(b).wf(),
        count <= limit,
    ensures
        final(b).vals() == old(b).vals(),
        forall|r: int, c: int| 0 <= r < 9 && 0 <= c < 9 ==> (#[trigger] final(b).cells@[r]@[c]).fixed == old(b).cells@[r]@[c].fixed,
        count <= res.0 <= limit,
        counted(old(b).vals(), res.1@, res.0 - count, limit - count),
    decreases empty_count(old(b).vals()),
{
    let ghost vals = b.vals();
    if count >= limit {
        let ghost none: Seq<Seq<u8>> = Seq::empty();
        return (count, Ghost(none));
    }
    match b.find_empty() {
        None => {
            proof {
                lemma_full_board(vals);
            }
            if b.is_valid() {
                proof {
                    assert(is_completion(vals, vals));
                    assert forall|sol: Seq<u8>| #[trigger] is_completion(sol, vals) implies seq![vals].contains(sol) by {
                        assert(seq![vals][0] == sol);
                    }
                }
                let ghost one: Seq<Seq<u8>> = seq![vals];
                (count + 1, Ghost(one))
            } else {
                let ghost none: Seq<Seq<u8>> = Seq::empty();
                (count, Ghost(none))
            }
        },
        Some(i) => {
            let cand = b.candidates(i / 9, i % 9);
            assert((i / 9) * 9 + i % 9 == i);
            let mut n = count;
            let ghost mut acc: Seq<Seq<u8>> = Seq::empty();
            let mut d: u8 = 1;
            while d <= 9
                invariant
                    1 <= d <= 10,
                    i < 81,
                    vals[i as int] == 0,
                    vals == old(b).vals(),
                    b.wf(),
                    b.vals() == vals,
                    forall|r: int, c: int| 0 <= r < 9 && 0 <= c < 9 ==> (#[trigger] b.cells@[r]@[c]).fixed == old(b).cells@[r]@[c].fixed,
                    count <= n <= limit,
                    forall|v: int| 0 <= v < 10 ==> #[trigger] cand@[v] == Board::cand_spec(vals, i as int, v),
                    acc.len() == n - count,
                    forall|k: int| 0 <= k < acc.len() ==> is_completion(#[trigger] acc[k], vals) && acc[k][i as int] < d,
                    forall|a: int, c: int| 0 <= a < acc.len() && 0 <= c < acc.len() && a != c ==> #[trigger] acc[a] != #[trigger] acc[c],
                    n < limit ==> forall|sol: Seq<u8>| #[trigger] is_completion(sol, vals) && sol[i as int] < d ==> acc.contains(sol),
                decreases 10 - d,
            {
                if cand[d as usize] {
                    b.set_value(i, d);
                    proof {
                        lemma_fill_decreases(vals, i as int, d);
                    }
                    let ghost inner = b.vals();
                    let (n2, found) = backtrack(b, n, limit);
                    b.set_value(i, 0);
                    proof {
                        assert(b.vals() =~= vals);
                        assert forall|k: int| 0 <= k < found@.len() implies is_completion(#[trigger] found@[k], vals) && found@[k][i as int] == d by {
                            lemma_completion_update(found@[k], vals, i as int, d);
                        }
                        let acc2 = acc + found@;
                        assert forall|k: int| 0 <= k < acc2.len() implies is_completion(#[trigger] acc2[k], vals) && acc2[k][i as int] < d + 1 by {
                            if k >= acc.len() {
                                assert(acc2[k] == found@[k - acc.len()]);
                            }
                        }
                        assert forall|a: int, c: int| 0 <= a < acc2.len() && 0 <= c < acc2.len() && a != c implies #[trigger] acc2[a] != #[trigger] acc2[c] by {
                            if a < acc.len() && c >= acc.len() {
                                assert(acc2[c] == found@[c - acc.len()]);
                                assert(acc2[a][i as int] < d);
                            } else if a >= acc.len() && c < acc.len() {
                                assert(acc2[a] == found@[a - acc.len()]);
                                assert(acc2[c][i as int] < d);
                            } else if a >= acc.len() && c >= acc.len() {
                                assert(acc2[a] == found@[a - acc.len()]);
                                assert(acc2[c] == found@[c - acc.len()]);
                            }
                        }
                        if n2 < limit {
                            assert forall|sol: Seq<u8>| #[trigger] is_completion(sol, vals) && sol[i as int] < d + 1 implies acc2.contains(sol) by {
                                if sol[i as int] == d {
                                    lemma_completion_update(sol, vals, i as int, d);
                                    assert(found@.contains(sol));
                                    let k = choose|k: int| 0 <= k < found@.len() && found@[k] == sol;
                                    assert(acc2[acc.len() + k] == sol);
                                } else {
                                    assert(acc.contains(sol));
                                    let k = choose|k: int| 0 <= k < acc.len() && acc[k] == sol;
                                    assert(acc2[k] == sol);
                                }
                            }
                        }
                        acc = acc2;
                    }
                    n = n2;
                    if n >= limit {
                        return (n, Ghost(acc));
                    }
                } else {
                    proof {
                        if n < limit {
                            assert forall|sol: Seq<u8>| #[trigger] is_completion(sol, vals) && sol[i as int] < d + 1 implies acc.contains(sol) by {
                                if sol[i as int] == d {
                                    lemma_completion_allowed(sol, vals, i as int);
                                    assert(cand@[d as int] == Board::cand_spec(vals, i as int, d as int));
                                }
                            }
                        }
                    }
                }
                d = d + 1;
            }
            proof {
                assert forall|sol: Seq<u8>| #[trigger] is_completion(sol, vals) implies sol[i as int] < 10 by {}
            }
            (n, Ghost(acc))
        },
    }
}

/// Counts the solutions of `b`, stopping as soon as `limit` are found. The
/// result is the number of solutions, capped at `limit`; the board's digits
/// are restored.
pub fn count_solutions(b: &mut Board, limit: usize) -> (n: usize)
    requires
        old(b).wf(),
    ensures
        final(b).vals() == old(b).vals(),
        final(b).same_givens(*old(b)),
        n <= limit,
        exists|found: Seq<Seq<u8>>| #[trigger] counted(old(b).vals(), found, n as int, limit as int),
{
    let (n, found) = backtrack(b, 0, limit);
    proof {
        assert(counted(old(b).vals(), found@, n as int, limit as int));
    }
    n
}


/// Number of digits among 1..`n` that may go in cell `i`.
pub open spec fn allowed_below(vals: Seq<u8>, i: int, n: int) -> nat
    decreases n,
{
    if n <= 1 {
        0
    } else {
        allowed_below(vals, i, n - 1) + if allowed(vals, i, n - 1) { 1nat } else { 0nat }
    }
}

/// Number of digits that may go in cell `i`.
pub open spec fn allowed_count(vals: Seq<u8>, i: int) -> nat {
    allowed_below(vals, i, 10)
}

/// The minimum-remaining-values choice: the first empty cell in row-major
/// order with no candidate, or else the first empty cell with the fewest.
pub open spec fn mrv_choice(vals: Seq<u8>, i: int) -> bool {
    &&& 0 <= i < 81
    &&& vals[i] == 0
    &&& if allowed_count(vals, i) == 0 {
        forall|j: int| 0 <= j < i && #[trigger] vals[j] == 0 ==> allowed_count(vals, j) > 0
    } else {
        &&& forall|j: int| 0 <= j < 81 && #[trigger] vals[j] == 0 ==> allowed_count(vals, j) >= allowed_count(vals, i)
        &&& forall|j: int| 0 <= j < i && #[trigger] vals[j] == 0 ==> allowed_count(vals, j) > allowed_count(vals, i)
    }
}

/// Number of candidates of the empty cell `i`.
pub(crate) fn candidate_count(b: &Board, i: usize) -> (n: usize)
    requires
        b.wf(),
        i < 81,
        b.vals()[i as int] == 0,
    ensures
        n == allowed_count(b.vals(), i as int),
        n <= 9,
{
    assert((i / 9) * 9 + i % 9 == i);
    let cand = b.candidates(i / 9, i % 9);
    let mut n: usize = 0;
    let mut v: usize = 1;
    while v <= 9
        invariant
            1 <= v <= 10,
            i < 81,
            b.vals()[i as int] == 0,
            n == allowed_below(b.vals(), i as int, v as int),
            n < v,
            forall|w: int| 0 <= w < 10 ==> #[trigger] cand@[w] == Board::cand_spec(b.vals(), i as int, w),
        decreases 10 - v,
    {
        if cand[v] {
            n = n + 1;
        }
        v = v + 1;
    }
    n
}

/// The empty cell chosen by minimum remaining values, as (row, column).
pub fn find_next_mrv(b: &Board) -> (r: Option<(usize, usize)>)
    requires
        b.wf(),
    ensures
        r is None <==> all_filled(b.vals()),
        r matches Some((row, col)) ==> row < 9 && col < 9 && mrv_choice(b.vals(), row * 9 + col),
{
    let mut best: Option<usize> = None;
    let mut best_count: usize = 0;
    let mut i: usize = 0;
    while i < 81
        invariant
            i <= 81,
            b.wf(),
            best is None ==> forall|j: int| 0 <= j < i ==> #[trigger] b.vals()[j] != 0,
            best matches Some(k) ==> k < i && b.vals()[k as int] == 0 && best_count == allowed_count(b.vals(), k as int)
                && best_count > 0
                && (forall|j: int| 0 <= j < i && #[trigger] b.vals()[j] == 0 ==> allowed_count(b.vals(), j) >= best_count)
                && (forall|j: int| 0 <= j < k && #[trigger] b.vals()[j] == 0 ==> allowed_count(b.vals(), j) > best_count),
            forall|j: int| 0 <= j < i && #[trigger] b.vals()[j] == 0 ==> allowed_count(b.vals(), j) > 0,
        decreases 81 - i,
    {
        if b.cells[i / 9][i % 9].value == 0 {
            let cnt = candidate_count(b, i);
            if cnt == 0 {
                assert((i / 9) * 9 + i % 9 == i);
                return Some((i / 9, i % 9));
            }
            if best.is_none() || cnt < best_count {
                best = Some(i);
                best_count = cnt;
            }
        }
        i = i + 1;
    }
    match best {
        None => None,
        Some(k) => {
            assert((k / 9) * 9 + k % 9 == k);
            Some((k / 9, k % 9))
        },
    }
}

/// Generates random solved grids and puzzles with a unique solution.
pub struct PuzzleGenerator {
    rng: StdRng,
}

/// `orders[i]` holds each digit 1..=9, for each of the 81 cells.
pub open spec fn digit_orders(orders: Seq<[u8; 9]>) -> bool {
    &&& orders.len() == 81
    &&& forall|i: int, v: u8| 0 <= i < 81 && 1 <= v <= 9 ==> #[trigger] orders[i]@.contains(v)
}

/// The cell that the minimum-remaining-values rule picks.
pub open spec fn mrv_cell(vals: Seq<u8>) -> int {
    choose|i: int| mrv_choice(vals, i)
}

/// The grid that the fill produces from `vals`: a full board is its own
/// result; otherwise the minimum-remaining-values cell `i` tries its
/// allowed digits in the order `orders[i]`, and the first that leads to a
/// result gives it.
pub open spec fn fill_result(vals: Seq<u8>, orders: Seq<[u8; 9]>) -> Option<Seq<u8>>
    decreases empty_count(vals), 10int,
{
    if vals.len() != 81 {
        None
    } else if all_filled(vals) {
        Some(vals)
    } else {
        fill_digits(vals, orders, mrv_cell(vals), 0)
    }
}

/// The fill's result when cell `i` tries the digits of `orders[i]` from
/// position `k` on.
pub open spec fn fill_digits(vals: Seq<u8>, orders: Seq<[u8; 9]>, i: int, k: int) -> Option<Seq<u8>>
    decreases empty_count(vals), 9 - k,
{
    if k < 0 || k >= 9 || !(0 <= i < 81) || vals.len() != 81 || vals[i] != 0 || orders.len() != 81 {
        None
    } else {
        let d = orders[i]@[k];
        if 1 <= d <= 9 && allowed(vals, i, d as int) {
            proof {
                lemma_fill_decreases(vals, i, d);
            }
            match fill_result(vals.update(i, d), orders) {
                Some(g) => Some(g),
                None => fill_digits(vals, orders, i, k + 1),
            }
        } else {
            fill_digits(vals, orders, i, k + 1)
        }
    }
}

/// At most one cell is the minimum-remaining-values choice.
proof fn lemma_mrv_unique(vals: Seq<u8>, i: int, j: int)
    requires
        mrv_choice(vals, i),
        mrv_choice(vals, j),
    ensures
        i == j,
{
    if i < j {
        assert(vals[i] == 0);
    } else if j < i {
        assert(vals[j] == 0);
    }
}

/// Fills the empty cells by backtracking: the minimum-remaining-values cell
/// `i` tries its candidates in the order `orders[i]`. The result is
/// `fill_result`; on success the board solves the puzzle it held, on
/// failure it is restored and that puzzle has no solution.
pub fn fill_grid_with(b: &mut Board, orders: &[[u8; 9]; 81]) -> (ok: bool)
    requires
        old(b).wf(),
        no_conflict(old(b).vals()),
        digit_orders(orders@),
    ensures
        final(b).wf(),
        final(b).same_givens(*old(b)),
        ok ==> final(b).complete() && is_completion(final(b).vals(), old(b).vals()),
        !ok ==> final(b).vals() == old(b).vals() && !solvable(old(b).vals()),
        fill_result(old(b).vals(), orders@) == if ok { Some(final(b).vals()) } else { None::<Seq<u8>> },
    decreases empty_count(old(b).vals()),
{
    let ghost vals = b.vals();
    match find_next_mrv(b) {
        None => {
            proof {
                lemma_full_board(vals);
            }
            true
        },
        Some((r, c)) => {
            let i = r * 9 + c;
            proof {
                let m = mrv_cell(vals);
                lemma_mrv_unique(vals, m, i as int);
                assert(fill_result(vals, orders@) == fill_digits(vals, orders@, i as int, 0));
            }
            let mut k: usize = 0;
            while k < 9
                invariant
                    k <= 9,
                    i == r * 9 + c,
                    r < 9,
                    c < 9,
                    i < 81,
                    vals == old(b).vals(),
                    vals[i as int] == 0,
                    b.wf(),
                    b.vals() == vals,
                    no_conflict(vals),
                    digit_orders(orders@),
                    b.same_givens(*old(b)),
                    fill_result(vals, orders@) == fill_digits(vals, orders@, i as int, k as int),
                    forall|sol: Seq<u8>, j: int| 0 <= j < k && #[trigger] is_completion(sol, vals) ==> sol[i as int] != #[trigger] orders@[i as int]@[j],
                decreases 9 - k,
            {
                let d = orders[i][k];
                let cand = b.candidates(r, c);
                let ok_digit = 1 <= d && d <= 9 && cand[d as usize];
                if ok_digit {
                    b.set_value(i, d);
                    proof {
                        lemma_fill_decreases(vals, i as int, d);
                        assert(b.vals() == vals.update(i as int, d));
                        assert forall|k2: int| 0 <= k2 < 81 implies #[trigger] b.vals()[k2] <= 9 by {
                            assert(b.vals()[k2] == vals.update(i as int, d)[k2]);
                        }
                        assert forall|p: int, q: int| #[trigger] crate::grid::peer(p, q) && b.vals()[p] != 0 implies b.vals()[p] != b.vals()[q] by {
                            if p == i {
                                assert(allowed(vals, i as int, d as int));
                            } else if q == i {
                                assert(allowed(vals, i as int, d as int));
                                assert(crate::grid::peer(q, p));
                            }
                        }
                    }
                    if fill_grid_with(b, orders) {
                        proof {
                            assert forall|j: int| 0 <= j < 81 && #[trigger] vals[j] != 0 implies b.vals()[j] == vals[j] by {
                                assert(vals.update(i as int, d)[j] == vals[j]);
                            }
                        }
                        return true;
                    }
                    b.set_value(i, 0);
                    proof {
                        assert(b.vals() =~= vals);
                        assert forall|sol: Seq<u8>| #[trigger] is_completion(sol, vals) implies sol[i as int] != d by {
                            lemma_completion_update(sol, vals, i as int, d);
                        }
                    }
                } else {
                    proof {
                        assert forall|sol: Seq<u8>| #[trigger] is_completion(sol, vals) implies sol[i as int] != d by {
                            lemma_completion_allowed(sol, vals, i as int);
                        }
                    }
                }
                k = k + 1;
            }
            proof {
                assert forall|sol: Seq<u8>| !#[trigger] is_completion(sol, vals) by {
                    if is_completion(sol, vals) {
                        let v = sol[i as int];
                        assert(orders@[i as int]@.contains(v));
                        let j = choose|j: int| 0 <= j < 9 && orders@[i as int]@[j] == v;
                        assert(sol[i as int] != orders@[i as int]@[j]);
                    }
                }
            }
            false
        },
    }
}

/// The all-empty puzzle.
pub open spec fn blank() -> Seq<u8> {
    Seq::new(81, |i: int| 0u8)
}

impl PuzzleGenerator {
    /// A generator seeded with `seed` for reproducible output, or from the
    /// thread's entropy source when `seed` is `None` (falling back to seed 0
    /// should that source fail).
    pub fn new(seed: Option<u64>) -> PuzzleGenerator {
        let rng = match seed {
            Some(s) => rng_from_seed(s),
            None => match rng_from_entropy() {
                Some(r) => r,
                None => rng_from_seed(0),
            },
        };
        PuzzleGenerator { rng }
    }

    /// A random solved grid with every cell given: the grid that the fill
    /// produces from the blank puzzle with one shuffled digit order per
    /// cell.
    pub fn generate_full_grid(&mut self) -> (b: Board)
        ensures
            b.wf(),
            b.complete(),
            forall|r: int, c: int| 0 <= r < 9 && 0 <= c < 9 ==> (#[trigger] b.cells@[r]@[c]).fixed == (b.cells@[r]@[c].value != 0),
            exists|orders: Seq<[u8; 9]>| #[trigger] digit_orders(orders) && fill_result(blank(), orders) == Some(b.vals()),
    {
        let mut b = Board::empty();
        assert(b.vals() =~= blank());
        let orders = self.draw_orders();
        let ok = fill_grid_with(&mut b, &orders);
        let ghost filled = b.vals();
        b.mark_givens();
        proof {
            if !ok {
                lemma_blank_solvable();
            }
            assert(b.complete());
            assert(b.vals() == filled);
            assert(digit_orders(orders@));
        }
        b
    }

    /// One shuffled order of the digits 1..=9 for each cell.
    fn draw_orders(&mut self) -> (orders: [[u8; 9]; 81])
        ensures
            digit_orders(orders@),
    {
        let mut orders = [[1u8, 2u8, 3u8, 4u8, 5u8, 6u8, 7u8, 8u8, 9u8]; 81];
        let mut i: usize = 0;
        while i < 81
            invariant
                i <= 81,
                forall|j: int, v: u8| 0 <= j < i && 1 <= v <= 9 ==> #[trigger] orders@[j]@.contains(v),
                forall|j: int, k: int| 0 <= j < i && 0 <= k < 9 ==> 1 <= #[trigger] orders@[j]@[k] <= 9,
            decreases 81 - i,
        {
            let mut digits: Vec<u8> = vec![1u8, 2u8, 3u8, 4u8, 5u8, 6u8, 7u8, 8u8, 9u8];
            let ghost orig = digits@;
            shuffle(&mut self.rng, &mut digits);
            proof {
                orig.to_multiset_ensures();
                digits@.to_multiset_ensures();
                assert forall|v: u8| 1 <= v <= 9 implies digits@.contains(v) by {
                    assert(orig[(v - 1) as int] == v);
                    assert(orig.contains(v));
                    assert(orig.to_multiset().count(v) > 0);
                    assert(digits@.to_multiset().count(v) > 0);
                }
                assert forall|k: int| 0 <= k < digits@.len() implies 1 <= #[trigger] digits@[k] <= 9 by {
                    assert(digits@.contains(digits@[k]));
                    assert(digits@.to_multiset().count(digits@[k]) > 0);
                    assert(orig.to_multiset().count(digits@[k]) > 0);
                    assert(orig.contains(digits@[k]));
                }
            }
            let order: [u8; 9] = [
                digits[0],
                digits[1],
                digits[2],
                digits[3],
                digits[4],
                digits[5],
                digits[6],
                digits[7],
                digits[8],
            ];
            proof {
                assert(order@ =~= digits@);
            }
            orders[i] = order;
            i = i + 1;
        }
        orders
    }

    /// A puzzle with a unique solution: a random solved grid from which
    /// cells, visited in shuffled order, are cleared whenever the solution
    /// stays unique, until `target_clues` clues remain or every cell was
    /// tried. Fewer removals than asked is not an error. Every remaining
    /// digit is marked given. The puzzle is a function of the random draws
    /// (`from_draws`): the same draws give the same puzzle.
    pub fn generate_puzzle(&mut self, target_clues: usize) -> (b: Board)
        ensures
            b.wf(),
            forall|r: int, c: int| 0 <= r < 9 && 0 <= c < 9 ==> (#[trigger] b.cells@[r]@[c]).fixed == (b.cells@[r]@[c].value != 0),
            exists|sol: Seq<u8>| #[trigger] unique_solution(b.vals(), sol),
            clue_count(b.vals()) <= 81,
            clue_count(b.vals()) >= target_clues || clue_count(b.vals()) == 81,
            clue_count(b.vals()) > target_clues ==> forall|i: int| 0 <= i < 81 && b.vals()[i] != 0 ==> #[trigger] clue_needed(b.vals(), i),
            exists|orders: Seq<[u8; 9]>, positions: Seq<usize>| #[trigger] from_draws(orders, positions, target_clues as int, b.vals()),
    {
        let mut b = self.generate_full_grid();
        let ghost full = b.vals();
        proof {
            lemma_full_board(full);
            assert(empty_count(full) == 0) by {
                lemma_no_empty(full, 81);
            }
        }
        let mut positions: Vec<usize> = Vec::new();
        let mut p: usize = 0;
        while p < 81
            invariant
                p <= 81,
                positions@.len() == p,
                forall|j: int| 0 <= j < p ==> #[trigger] positions@[j] == j,
            decreases 81 - p,
        {
            positions.push(p);
            p = p + 1;
        }
        let ghost orig = positions@;
        shuffle(&mut self.rng, &mut positions);
        proof {
            orig.to_multiset_ensures();
            positions@.to_multiset_ensures();
            assert forall|k: int| 0 <= k < positions@.len() implies #[trigger] positions@[k] < 81 by {
                assert(positions@.contains(positions@[k]));
                assert(positions@.to_multiset().count(positions@[k]) > 0);
                assert(orig.to_multiset().count(positions@[k]) > 0);
                assert(orig.contains(positions@[k]));
            }
        }
        proof {
            assert forall|x: int| 0 <= x < 81 implies positions@.contains(#[trigger] (x as usize)) by {
                assert(orig[x] == x as usize);
                assert(orig.contains(x as usize));
                assert(orig.to_multiset().count(x as usize) > 0);
                assert(positions@.to_multiset().count(x as usize) > 0);
            }
            assert(positions_perm(positions@));
        }
        remove_clues(&mut b, &positions, target_clues);
        let ghost vals = b.vals();
        b.mark_givens();
        proof {
            assert(b.vals() == vals);
            let orders = choose|orders: Seq<[u8; 9]>| #[trigger] digit_orders(orders) && fill_result(blank(), orders) == Some(full);
            assert(from_draws(orders, positions@, target_clues as int, b.vals()));
            assert(unique_solution(b.vals(), full));
        }
        b
    }
}

/// `vals` is the puzzle that the generator makes from the digit orders
/// `orders` and the cell order `positions`: the fill of the blank puzzle
/// with `orders`, then clue removal in the order of `positions`.
pub open spec fn from_draws(orders: Seq<[u8; 9]>, positions: Seq<usize>, target: int, vals: Seq<u8>) -> bool {
    &&& digit_orders(orders)
    &&& positions_perm(positions)
    &&& fill_result(blank(), orders) matches Some(g) && vals == removal_result(g, positions, 0, target)
}

/// The 81 cell indices, each once, in some order.
pub open spec fn positions_perm(positions: Seq<usize>) -> bool {
    &&& positions.len() == 81
    &&& forall|k: int| 0 <= k < 81 ==> #[trigger] positions[k] < 81
    &&& forall|x: int| 0 <= x < 81 ==> positions.contains(#[trigger] (x as usize))
}

/// The puzzle left when, visiting the cells `positions[k..]` in order, each
/// clue is cleared if the puzzle keeps a unique solution without it, until
/// at most `target` clues remain.
pub open spec fn removal_result(vals: Seq<u8>, positions: Seq<usize>, k: int, target: int) -> Seq<u8>
    decreases positions.len() - k,
{
    if k < 0 || k >= positions.len() || clue_count(vals) <= target {
        vals
    } else {
        let idx = positions[k] as int;
        if idx >= 81 || vals[idx] == 0 || clue_needed(vals, idx) {
            removal_result(vals, positions, k + 1, target)
        } else {
            removal_result(vals.update(idx, 0u8), positions, k + 1, target)
        }
    }
}

/// Clears clues of the solved grid `b`, visiting the cells in the order of
/// `positions`: a clue goes when the puzzle keeps a unique solution without
/// it, until `target_clues` clues remain or every cell was tried. The result
/// is `removal_result`; when the target was not reached, every remaining
/// clue is needed.
pub fn remove_clues(b: &mut Board, positions: &Vec<usize>, target_clues: usize)
    requires
        old(b).wf(),
        old(b).complete(),
        positions_perm(positions@),
    ensures
        final(b).wf(),
        final(b).same_givens(*old(b)),
        final(b).vals() == removal_result(old(b).vals(), positions@, 0, target_clues as int),
        unique_solution(final(b).vals(), old(b).vals()),
        clue_count(final(b).vals()) <= 81,
        clue_count(final(b).vals()) >= target_clues || clue_count(final(b).vals()) == 81,
        clue_count(final(b).vals()) > target_clues ==> forall|i: int| 0 <= i < 81 && final(b).vals()[i] != 0 ==> #[trigger] clue_needed(final(b).vals(), i),
{
    let ghost full = b.vals();
    proof {
        lemma_full_board(full);
        assert(empty_count(full) == 0) by {
            lemma_no_empty(full, 81);
        }
    }
        let mut clues: usize = 81;
        let mut k: usize = 0;
        while k < positions.len()
            invariant
                k <= positions@.len(),
                positions@.len() == 81,
                forall|j: int| 0 <= j < positions@.len() ==> #[trigger] positions@[j] < 81,
                b.wf(),
                unique_solution(b.vals(), full),
                clues as int == clue_count(b.vals()),
                clues <= 81,
                clues >= target_clues || clues == 81,
                forall|kk: int| 0 <= kk < k && b.vals()[positions@[kk] as int] != 0 ==> #[trigger] clue_needed(b.vals(), positions@[kk] as int),
                removal_result(b.vals(), positions@, k as int, target_clues as int) == removal_result(full, positions@, 0, target_clues as int),
                b.same_givens(*old(b)),
                full == old(b).vals(),
            ensures
                b.wf(),
                unique_solution(b.vals(), full),
                clues as int == clue_count(b.vals()),
                clues <= 81,
                clues >= target_clues || clues == 81,
                clues <= target_clues || k == 81,
                forall|kk: int| 0 <= kk < k && b.vals()[positions@[kk] as int] != 0 ==> #[trigger] clue_needed(b.vals(), positions@[kk] as int),
                b.vals() == removal_result(full, positions@, 0, target_clues as int),
                b.same_givens(*old(b)),
            decreases positions@.len() - k,
        {
            if clues <= target_clues {
                proof {
                    assert(removal_result(b.vals(), positions@, k as int, target_clues as int) == b.vals());
                }
                break;
            }
            let ghost cur = b.vals();
            let idx = positions[k];
            let old_v = b.cells[idx / 9][idx % 9].value;
            assert(old_v == b.vals()[idx as int]) by {
                assert(idx == (idx / 9) * 9 + idx % 9);
            }
            if old_v != 0 {
                let ghost before = b.vals();
                b.set_value(idx, 0);
                let mut copy = *b;
                let count = count_solutions(&mut copy, 2);
                if count != 1 {
                    let ghost removed = b.vals();
                    b.set_value(idx, old_v);
                    proof {
                        assert(b.vals() =~= before);
                        assert(removed =~= before.update(idx as int, 0u8));
                        if !clue_needed(before, idx as int) {
                            let s = choose|s: Seq<u8>| #[trigger] unique_solution(removed, s);
                            let found = choose|found: Seq<Seq<u8>>| #[trigger] counted(removed, found, count as int, 2);
                            lemma_count_with_unique(removed, found, count as int, s);
                        }
                    }
                } else {
                    proof {
                        let found = choose|found: Seq<Seq<u8>>| #[trigger] counted(b.vals(), found, 1, 2);
                        lemma_count_one_unique(b.vals(), found);
                        assert(is_completion(full, b.vals())) by {
                            assert forall|j: int| 0 <= j < 81 && #[trigger] b.vals()[j] != 0 implies full[j] == b.vals()[j] by {
                                assert(before[j] == b.vals()[j]);
                            }
                        }
                        assert(b.vals().update(idx as int, old_v) =~= before);
                        lemma_fill_decreases(b.vals(), idx as int, old_v);
                        assert forall|kk: int| 0 <= kk < k && b.vals()[positions@[kk] as int] != 0 implies #[trigger] clue_needed(b.vals(), positions@[kk] as int) by {
                            let x = positions@[kk] as int;
                            assert(x != idx);
                            assert(before[x] != 0);
                            assert(clue_needed(before, x));
                            if !clue_needed(b.vals(), x) {
                                let s = choose|s: Seq<u8>| #[trigger] unique_solution(b.vals().update(x, 0u8), s);
                                assert forall|j: int| 0 <= j < 81 && #[trigger] b.vals().update(x, 0u8)[j] != 0 implies before.update(x, 0u8)[j] == b.vals().update(x, 0u8)[j] by {}
                                assert(is_completion(full, before.update(x, 0u8))) by {
                                    assert forall|j: int| 0 <= j < 81 && #[trigger] before.update(x, 0u8)[j] != 0 implies full[j] == before.update(x, 0u8)[j] by {
                                        assert(before[j] != 0);
                                    }
                                }
                                lemma_more_clues_unique(b.vals().update(x, 0u8), before.update(x, 0u8), s, full);
                            }
                        }
                    }
                    clues = clues - 1;
                }
            }
            proof {
                assert(removal_result(cur, positions@, k as int, target_clues as int) == removal_result(b.vals(), positions@, k + 1, target_clues as int));
            }
            k = k + 1;
        }
        proof {
            if k == positions@.len() {
                assert(removal_result(b.vals(), positions@, k as int, target_clues as int) == b.vals());
            }
        }
        proof {
            if clues > target_clues {
                assert forall|i: int| 0 <= i < 81 && b.vals()[i] != 0 implies #[trigger] clue_needed(b.vals(), i) by {
                    assert(positions@.contains(i as usize));
                    let kk = choose|kk: int| 0 <= kk < positions@.len() && positions@[kk] == i as usize;
                    assert(b.vals()[positions@[kk] as int] != 0);
                }
            }
        }
}

/// Clearing clue `i` would leave a puzzle without a unique solution.
pub open spec fn clue_needed(vals: Seq<u8>, i: int) -> bool {
    !exists|s: Seq<u8>| #[trigger] unique_solution(vals.update(i, 0u8), s)
}

/// Adding clues consistent with a solution keeps a unique solution unique.
proof fn lemma_more_clues_unique(a: Seq<u8>, more: Seq<u8>, s: Seq<u8>, full: Seq<u8>)
    requires
        unique_solution(a, s),
        forall|j: int| 0 <= j < 81 && #[trigger] a[j] != 0 ==> more[j] == a[j],
        is_completion(full, more),
    ensures
        unique_solution(more, full),
{
    assert forall|s2: Seq<u8>| #[trigger] is_completion(s2, more) implies is_completion(s2, a) by {
        assert forall|j: int| 0 <= j < 81 && #[trigger] a[j] != 0 implies s2[j] == a[j] by {
            assert(more[j] != 0);
        }
    }
    assert(is_completion(full, a));
}

/// A capped count of a puzzle with a unique solution is one.
proof fn lemma_count_with_unique(vals: Seq<u8>, found: Seq<Seq<u8>>, n: int, s: Seq<u8>)
    requires
        counted(vals, found, n, 2),
        unique_solution(vals, s),
    ensures
        n == 1,
{
    if n >= 2 {
        assert(found[0] == s && found[1] == s);
    } else if n == 0 {
        assert(found.contains(s));
    }
}

proof fn lemma_no_empty(vals: Seq<u8>, n: int)
    requires
        0 <= n <= vals.len(),
        forall|i: int| 0 <= i < n ==> #[trigger] vals[i] != 0,
    ensures
        crate::grid::empty_below(vals, n) == 0,
    decreases n,
{
    if n > 0 {
        lemma_no_empty(vals, n - 1);
    }
}


/// The digit of a fixed solved grid at row `r`, column `c`.
pub open spec fn pattern_digit(r: int, c: int) -> int {
    (3 * (r % 3) + r / 3 + c) % 9 + 1
}

proof fn lemma_shift_distinct(a: u32, b: u32, k: u32)
    by (bit_vector)
    requires
        a < 9,
        b < 9,
        k < 9,
        a != b,
    ensures
        (a + k) % 9 != (b + k) % 9,
{
}

proof fn lemma_row_offsets(r1: u32, r2: u32, c: u32)
    by (bit_vector)
    requires
        r1 < 9,
        r2 < 9,
        c < 9,
        r1 != r2,
    ensures
        (3 * (r1 % 3) + r1 / 3 + c) % 9 != (3 * (r2 % 3) + r2 / 3 + c) % 9,
{
}

proof fn lemma_box_offsets(r1: u32, c1: u32, r2: u32, c2: u32)
    by (bit_vector)
    requires
        r1 < 9,
        r2 < 9,
        c1 < 9,
        c2 < 9,
        r1 / 3 == r2 / 3,
        c1 / 3 == c2 / 3,
        r1 != r2 || c1 != c2,
    ensures
        (3 * (r1 % 3) + r1 / 3 + c1) % 9 != (3 * (r2 % 3) + r2 / 3 + c2) % 9,
{
}

proof fn lemma_pattern_range(i: int)
    requires
        0 <= i < 81,
    ensures
        1 <= pattern_digit(i / 9, i % 9) <= 9,
{
}

proof fn lemma_pattern_peers(i: int, j: int)
    requires
        crate::grid::peer(i, j),
    ensures
        pattern_digit(i / 9, i % 9) != pattern_digit(j / 9, j % 9),
{
    let (r1, c1, r2, c2) = (i / 9, i % 9, j / 9, j % 9);
    assert(i == r1 * 9 + c1 && j == r2 * 9 + c2);
    if r1 == r2 {
        lemma_shift_distinct(c1 as u32, c2 as u32, (3 * (r1 % 3) + r1 / 3) as u32);
    } else if c1 == c2 {
        lemma_row_offsets(r1 as u32, r2 as u32, c1 as u32);
    } else {
        lemma_box_offsets(r1 as u32, c1 as u32, r2 as u32, c2 as u32);
    }
}

/// The blank puzzle has a solution.
pub proof fn lemma_blank_solvable()
    ensures
        solvable(blank()),
{
    let sol = Seq::new(81, |i: int| pattern_digit(i / 9, i % 9) as u8);
    assert forall|i: int| 0 <= i < 81 implies 1 <= #[trigger] sol[i] <= 9 by {
        lemma_pattern_range(i);
    }
    assert forall|i: int, j: int| #[trigger] crate::grid::peer(i, j) && sol[i] != 0 implies sol[i] != sol[j] by {
        lemma_pattern_range(i);
        lemma_pattern_range(j);
        lemma_pattern_peers(i, j);
    }
    assert(is_completion(sol, blank()));
}

} // verus!

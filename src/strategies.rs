//! Human-style deduction rules over [`Grid`]. Each rule scans in a fixed
//! order, applies its first match and reports it; every rule only commits a
//! digit or removes candidates that no solution of the board can use.
use vstd::prelude::*;
use crate::bits::{
    clear_bit, exact_one, exact_two, first_bit, has_bit, lemma_without, lemma_zero_mask, subset_mask, test_bit, without,
};
use crate::error::SudokuError;
use crate::grid::{peer, Grid, Pos};
use crate::units::{
    box_unit, cell_in_unit, col_unit, in_unit, lemma_unit_cell, lemma_unit_has_digit, row_unit,
    unit_cell, unit_cell_idx,
};

verus! {

/// The deduction rule that produced a step.
#[derive(Clone, Copy, Debug, PartialEq, Eq, Structural)]
pub enum StrategyKind {
    NakedSingle,
    HiddenSingle,
    NakedPair,
    PointingPair,
    BoxLineReduction,
    XWing,
}

/// What a rule did. `digits` is a mask of the digits involved. For a
/// single, `first` is the cell filled and `unit` its row (naked single) or
/// the unit that forced it (hidden single); for a naked pair, `first` and
/// `second` are the pair's cells in `unit`; for pointing and box-line
/// reduction, the candidates of `unit` all lie in unit `first`, and the
/// digit was removed from `first` outside `unit`; for an X-Wing, `first` and
/// `second` are the two lines and `unit` is 0 for rows, 1 for columns.
#[derive(Clone, Copy, Debug, PartialEq, Eq, Structural)]
pub struct Deduction {
    pub kind: StrategyKind,
    pub digits: u16,
    pub unit: usize,
    pub first: usize,
    pub second: usize,
}

/// `new` keeps the invariant, narrows `old`, and keeps every solution that
/// was consistent with `old`.
pub open spec fn sound_step(old: Grid, new: Grid) -> bool {
    &&& new.wf()
    &&& new.narrows(old)
    &&& forall|sol: Seq<u8>| #[trigger] old.consistent(sol) ==> new.consistent(sol)
}

/// Some cell lost a candidate that it had in `old`.
pub open spec fn progressed(old: Grid, new: Grid) -> bool {
    exists|k: int, e: u16|
        0 <= k < 81 && e < 16 && #[trigger] has_bit(old.cands@[k], e) && !has_bit(new.cands@[k], e)
}

/// The `k`-th cell of unit `u` is empty and has candidate `d`.
pub open spec fn cand_at(g: Grid, u: int, k: int, d: int) -> bool {
    g.cells@[unit_cell(u, k)] == 0 && has_bit(g.cands@[unit_cell(u, k)], d as u16)
}

/// Removing digit `d` from the cells that `cleared(v, keep, a, b, _)`
/// names would remove a candidate.
pub open spec fn clears_something(g: Grid, d: int, v: int, keep: int, a: int, b: int) -> bool {
    exists|i: int| #[trigger] cleared(v, keep, a, b, i) && has_bit(g.cands@[i], d as u16)
}

/// The candidates for `d` in unit `u` exist and all lie in unit `w`, and
/// removing `d` from `w` outside `u` would remove a candidate.
pub open spec fn locked_applies(g: Grid, u: int, d: int, w: int) -> bool {
    &&& exists|k: int| 0 <= k < 9 && #[trigger] cand_at(g, u, k, d)
    &&& forall|k: int| 0 <= k < 9 && #[trigger] cand_at(g, u, k, d) ==> in_unit(w, unit_cell(u, k))
    &&& clears_something(g, d, w, u, 81, 81)
}

/// Cells `a` < `b` of unit `u` are empty with the same two candidates, and
/// removing those digits from the unit's other cells would remove a
/// candidate.
pub open spec fn naked_pair_applies(g: Grid, u: int, a: int, b: int) -> bool {
    let ca = unit_cell(u, a);
    let cb = unit_cell(u, b);
    &&& 0 <= a < b < 9
    &&& g.cells@[ca] == 0
    &&& g.cells@[cb] == 0
    &&& g.cands@[ca] == g.cands@[cb]
    &&& exists|x: u16, y: u16|
        x < y < 16 && #[trigger] exact_two(g.cands@[ca], x, y) && (clears_something(g, x as int, u, 27, ca, cb)
            || clears_something(g, y as int, u, 27, ca, cb))
}

/// In unit `u`, digit `d` is a candidate at exactly positions `k1` < `k2`.
pub open spec fn two_spots(g: Grid, u: int, d: int, k1: int, k2: int) -> bool {
    &&& 0 <= k1 < k2 < 9
    &&& cand_at(g, u, k1, d)
    &&& cand_at(g, u, k2, d)
    &&& forall|j: int| 0 <= j < 9 && #[trigger] cand_at(g, u, j, d) ==> j == k1 || j == k2
}

/// Lines `u1` < `u2` of the family starting at `base` hold digit `d` as a
/// candidate at the same two positions only, and removing `d` from the two
/// crossing units outside these lines would remove a candidate.
pub open spec fn xwing_applies(g: Grid, base: int, u1: int, u2: int, d: int) -> bool {
    &&& base <= u1 < u2 < base + 9
    &&& exists|k1: int, k2: int|
        #[trigger] two_spots(g, u1, d, k1, k2) && #[trigger] two_spots(g, u2, d, k1, k2) && (clears_something(
            g,
            d,
            cross_unit(base, k1),
            27,
            unit_cell(u1, k1),
            unit_cell(u2, k1),
        ) || clears_something(g, d, cross_unit(base, k2), 27, unit_cell(u1, k2), unit_cell(u2, k2)))
}

/// No deduction rule applies to the board.
pub open spec fn fixpoint(g: Grid) -> bool {
    &&& forall|i: int| 0 <= i < 81 ==> !#[trigger] naked_single_at(g, i)
    &&& forall|u: int, d: int| 0 <= u < 27 && 1 <= d <= 9 ==> !#[trigger] hidden_single_at(g, u, d)
    &&& forall|u: int, a: int, b: int| 0 <= u < 27 ==> !#[trigger] naked_pair_applies(g, u, a, b)
    &&& forall|b: int, d: int, w: int| 18 <= b < 27 && 1 <= d <= 9 && 0 <= w < 18 ==> !#[trigger] locked_applies(g, b, d, w)
    &&& forall|u: int, d: int, w: int| 0 <= u < 18 && 1 <= d <= 9 && 18 <= w < 27 ==> !#[trigger] locked_applies(g, u, d, w)
    &&& forall|base: int, u1: int, u2: int, d: int|
        (base == 0 || base == 9) && 1 <= d <= 9 ==> !#[trigger] xwing_applies(g, base, u1, u2, d)
}

/// Digit `d` is a hidden single of unit `u`, and no unit and digit before
/// them in scan order (units ascending, then digits ascending) has one.
pub open spec fn first_hidden(g: Grid, u: int, d: int) -> bool {
    &&& hidden_single_at(g, u, d)
    &&& forall|u2: int, d2: int|
        0 <= u2 < 27 && 1 <= d2 <= 9 && (u2 < u || (u2 == u && d2 < d)) ==> !#[trigger] hidden_single_at(g, u2, d2)
}

/// The naked pair at positions `a` < `b` of unit `u` applies, and none
/// before it in scan order (units, then first cell, then second cell) does.
pub open spec fn first_naked_pair(g: Grid, u: int, a: int, b: int) -> bool {
    &&& naked_pair_applies(g, u, a, b)
    &&& forall|u2: int, a2: int, b2: int|
        0 <= u2 < 27 && (u2 < u || (u2 == u && (a2 < a || (a2 == a && b2 < b)))) ==> !#[trigger] naked_pair_applies(g, u2, a2, b2)
}

/// Locked candidates of digit `d` from unit `u` into unit `w` apply, and no
/// unit in `[lo, u]` with a digit before them in scan order applies into any
/// unit of `[wlo, whi)`.
pub open spec fn first_locked(g: Grid, lo: int, u: int, d: int, w: int, wlo: int, whi: int) -> bool {
    &&& locked_applies(g, u, d, w)
    &&& forall|u2: int, d2: int, w2: int|
        lo <= u2 && 1 <= d2 <= 9 && wlo <= w2 < whi && (u2 < u || (u2 == u && d2 < d)) ==> !#[trigger] locked_applies(g, u2, d2, w2)
}

/// `x` reports the first hidden single in scan order.
pub open spec fn hidden_report(g: Grid, x: Deduction) -> bool {
    exists|d: int| 1 <= d <= 9 && x.digits == 1u16 << (d as u16) && #[trigger] first_hidden(g, x.unit as int, d)
}

/// `x` reports the first applicable naked pair in scan order.
pub open spec fn pair_report(g: Grid, x: Deduction) -> bool {
    exists|a: int, b: int|
        unit_cell(x.unit as int, a) == x.first && unit_cell(x.unit as int, b) == x.second && #[trigger] first_naked_pair(
            g,
            x.unit as int,
            a,
            b,
        )
}

/// `x` reports locked candidates that apply, with none before them in scan
/// order.
pub open spec fn locked_report(g: Grid, x: Deduction, lo: int, wlo: int, whi: int) -> bool {
    exists|d: int| 1 <= d <= 9 && x.digits == 1u16 << (d as u16) && #[trigger] first_locked(g, lo, x.unit as int, d, x.first as int, wlo, whi)
}

/// `x` reports an X-Wing on digit `d` in the lines of family `base` that
/// applies, with no earlier pair of lines of that family applying.
pub open spec fn family_first(g: Grid, base: int, d: int, x: Deduction) -> bool {
    &&& x.digits == 1u16 << (d as u16)
    &&& x.unit == (if base == 0 { 0usize } else { 1usize })
    &&& xwing_applies(g, base, x.first as int, x.second as int, d)
    &&& forall|v1: int, v2: int|
        (v1 < x.first || (v1 == x.first && v2 < x.second)) ==> !#[trigger] xwing_applies(g, base, v1, v2, d)
}

/// The first line unit of the family a report names: rows for 0, columns
/// otherwise.
pub open spec fn family_base(unit: usize) -> int {
    if unit == 0 {
        0
    } else {
        9
    }
}

/// `x` reports the first applicable X-Wing in scan order: digits
/// ascending, rows before columns, then pairs of lines.
pub open spec fn xwing_report(g: Grid, x: Deduction) -> bool {
    exists|d: int|
        1 <= d <= 9 && #[trigger] family_first(g, family_base(x.unit), d, x) && (forall|base: int, v1: int, v2: int, d2: int|
            (base == 0 || base == 9) && 1 <= d2 < d ==> !#[trigger] xwing_applies(g, base, v1, v2, d2)) && (x.unit == 1
            ==> forall|v1: int, v2: int| !#[trigger] xwing_applies(g, 0, v1, v2, d))
}

/// Cell `i` is empty and has exactly one candidate.
pub open spec fn naked_single_at(g: Grid, i: int) -> bool {
    g.cells@[i] == 0 && exists|d: u16| d < 16 && #[trigger] exact_one(g.cands@[i], d)
}

/// Digit `d` is a candidate in exactly one cell of unit `u`.
pub open spec fn hidden_single_at(g: Grid, u: int, d: int) -> bool {
    exists|k: int| 0 <= k < 9 && #[trigger] cand_at(g, u, k, d) && forall|j: int| 0 <= j < 9 && #[trigger] cand_at(g, u, j, d) ==> j == k
}

/// A cell that a candidate elimination in unit `v` touches: it is in `v`,
/// outside unit `keep` (when `keep` names one) and neither `a` nor `b`.
pub open spec fn cleared(v: int, keep: int, a: int, b: int, i: int) -> bool {
    &&& in_unit(v, i)
    &&& !(keep < 27 && in_unit(keep, i))
    &&& i != a
    &&& i != b
}

/// Sound steps compose.
pub proof fn lemma_sound_trans(a: Grid, b: Grid, c: Grid)
    requires
        sound_step(a, b),
        sound_step(b, c),
    ensures
        sound_step(a, c),
{
    Grid::lemma_narrows_trans(c, b, a);
}

proof fn lemma_progress_trans(a: Grid, b: Grid, c: Grid)
    requires
        a.wf(),
        progressed(a, b),
        c.narrows(b),
        c.cells == b.cells,
        b.cells == a.cells,
    ensures
        progressed(a, c),
{
    let (k, e) = choose|k: int, e: u16|
        0 <= k < 81 && e < 16 && #[trigger] has_bit(a.cands@[k], e) && !has_bit(b.cands@[k], e);
    if a.cells@[k] != 0 {
        lemma_zero_mask(e);
    }
    assert(c.cells@[k] == 0);
    assert(subset_mask(c.cands@[k], b.cands@[k]));
    assert(!has_bit(c.cands@[k], e));
}

/// With the digits unchanged, a solution consistent with the narrower board
/// is consistent with the wider one.
proof fn lemma_consistent_back(new: Grid, old: Grid, sol: Seq<u8>)
    requires
        new.narrows(old),
        new.cells == old.cells,
        new.consistent(sol),
    ensures
        old.consistent(sol),
{
    assert forall|i: int| 0 <= i < 81 implies (if old.cells@[i] != 0 {
        #[trigger] sol[i] == old.cells@[i]
    } else {
        has_bit(old.cands@[i], sol[i] as u16)
    }) by {
        assert(sol[i] == sol[i]);
        assert(new.cells@[i] == old.cells@[i]);
    }
}

/// A solution consistent with a board puts digit `d` in unit `u` at a cell
/// where `d` is still a candidate, given that `d` is a candidate somewhere
/// in the unit.
proof fn lemma_digit_in_unit(g: Grid, sol: Seq<u8>, u: int, d: int) -> (k: int)
    requires
        g.wf(),
        g.consistent(sol),
        0 <= u < 27,
        1 <= d <= 9,
        exists|k0: int| 0 <= k0 < 9 && #[trigger] cand_at(g, u, k0, d),
    ensures
        0 <= k < 9,
        cand_at(g, u, k, d),
        sol[unit_cell(u, k)] == d,
{
    let k = lemma_unit_has_digit(sol, u, d);
    let c = unit_cell(u, k);
    lemma_unit_cell(u, k);
    if g.cells@[c] != 0 {
        let k0 = choose|k0: int| 0 <= k0 < 9 && #[trigger] cand_at(g, u, k0, d);
        lemma_unit_cell(u, k0);
        let p = unit_cell(u, k0);
        assert(p != c);
        assert(peer(p, c));
        assert(crate::grid::allowed(g.cells@, p, d));
        assert(false);
    }
    k
}

/// Removes digit `d` from the candidates of cell `k`.
fn eliminate(grid: &mut Grid, k: usize, d: u8) -> (changed: bool)
    requires
        old(grid).wf(),
        k < 81,
        1 <= d <= 9,
    ensures
        final(grid).cells == old(grid).cells,
        final(grid).wf(),
        final(grid).narrows(*old(grid)),
        changed <==> has_bit(old(grid).cands@[k as int], d as u16),
        !changed ==> *final(grid) == *old(grid),
        changed ==> progressed(*old(grid), *final(grid)),
        forall|q: int| 0 <= q < 81 && q != k ==> #[trigger] final(grid).cands@[q] == old(grid).cands@[q],
        forall|sol: Seq<u8>| #[trigger] old(grid).consistent(sol) && sol[k as int] != d ==> final(grid).consistent(sol),
{
    let m = grid.cands[k];
    if !test_bit(m, d as u16) {
        return false;
    }
    let ghost g0 = *grid;
    let m2 = clear_bit(m, d as u16);
    grid.cands[k] = m2;
    proof {
        assert(grid.cells@[k as int] == 0) by {
            if g0.cells@[k as int] != 0 {
                lemma_zero_mask(d as u16);
            }
        }
        assert forall|i: int, e: u16|
            0 <= i < 81 && grid.cells@[i] == 0 && e < 16 && #[trigger] has_bit(grid.cands@[i], e)
            implies crate::grid::allowed(grid.cells@, i, e as int) by {
            if i == k {
                assert(has_bit(g0.cands@[i], e));
            }
        }
        assert forall|i: int| 0 <= i < 81 && #[trigger] grid.cells@[i] != 0 implies grid.cands@[i] == 0 by {}
        assert forall|i: int| 0 <= i < 81 implies (if g0.cells@[i] != 0 {
            #[trigger] grid.cells@[i] == g0.cells@[i]
        } else if grid.cells@[i] != 0 {
            has_bit(g0.cands@[i], grid.cells@[i] as u16)
        } else {
            subset_mask(grid.cands@[i], g0.cands@[i])
        }) by {}
        assert(!has_bit(grid.cands@[k as int], d as u16));
        assert forall|sol: Seq<u8>| #[trigger] g0.consistent(sol) && sol[k as int] != d implies grid.consistent(sol) by {
            assert forall|i: int| 0 <= i < 81 implies (if grid.cells@[i] != 0 {
                #[trigger] sol[i] == grid.cells@[i]
            } else {
                has_bit(grid.cands@[i], sol[i] as u16)
            }) by {
                assert(sol[i] == sol[i]);
            }
        }
    }
    true
}

/// Removes digit `d` from every cell that `cleared(v, keep, a, b, _)` names.
/// The caller shows that no solution of the board has `d` there.
fn clear_digit_in_unit(grid: &mut Grid, d: u8, v: usize, keep: usize, a: usize, b: usize) -> (changed: bool)
    requires
        old(grid).wf(),
        1 <= d <= 9,
        v < 27,
        forall|sol: Seq<u8>, i: int|
            #[trigger] old(grid).consistent(sol) && #[trigger] cleared(v as int, keep as int, a as int, b as int, i)
                ==> sol[i] != d,
    ensures
        final(grid).cells == old(grid).cells,
        sound_step(*old(grid), *final(grid)),
        !changed ==> *final(grid) == *old(grid),
        changed ==> progressed(*old(grid), *final(grid)),
        changed <==> clears_something(*old(grid), d as int, v as int, keep as int, a as int, b as int),
{
    let ghost g0 = *grid;
    let mut changed = false;
    let mut k: usize = 0;
    proof {
        Grid::lemma_narrows_refl(g0);
    }
    while k < 9
        invariant
            k <= 9,
            v < 27,
            1 <= d <= 9,
            g0.wf(),
            grid.cells == g0.cells,
            sound_step(g0, *grid),
            !changed ==> *grid == g0,
            changed ==> progressed(g0, *grid),
            forall|sol: Seq<u8>, i: int|
                #[trigger] g0.consistent(sol) && #[trigger] cleared(v as int, keep as int, a as int, b as int, i) ==> sol[i]
                    != d,
            !changed ==> forall|j: int| 0 <= j < k && #[trigger] cleared(v as int, keep as int, a as int, b as int, unit_cell(v as int, j))
                ==> !has_bit(g0.cands@[unit_cell(v as int, j)], d as u16),
            changed ==> clears_something(g0, d as int, v as int, keep as int, a as int, b as int),
        decreases 9 - k,
    {
        let i = unit_cell_idx(v, k);
        let skip = (keep < 27 && cell_in_unit(keep, i)) || i == a || i == b;
        if !skip {
            let ghost mid = *grid;
            let ch = eliminate(grid, i, d);
            proof {
                assert forall|sol: Seq<u8>| #[trigger] g0.consistent(sol) implies grid.consistent(sol) by {
                    assert(mid.consistent(sol));
                    assert(cleared(v as int, keep as int, a as int, b as int, i as int));
                }
                Grid::lemma_narrows_trans(*grid, mid, g0);
                if ch && !changed {
                    assert(progressed(g0, *grid));
                } else if changed {
                    lemma_progress_trans(g0, mid, *grid);
                }
            }
            proof {
                if ch {
                    assert(cleared(v as int, keep as int, a as int, b as int, i as int));
                }
            }
            changed = changed || ch;
        }
        k = k + 1;
    }
    proof {
        if !changed && clears_something(g0, d as int, v as int, keep as int, a as int, b as int) {
            let i = choose|i: int| #[trigger] cleared(v as int, keep as int, a as int, b as int, i) && has_bit(g0.cands@[i], d as u16);
            let j = crate::units::lemma_unit_pos(v as int, i);
            assert(cleared(v as int, keep as int, a as int, b as int, unit_cell(v as int, j)));
        }
    }
    changed
}

/// The first cell of unit `u` where `d` is a candidate, with its position.
fn first_candidate(g: &Grid, u: usize, d: u8) -> (r: Option<(usize, usize)>)
    requires
        u < 27,
        d < 16,
    ensures
        r is None ==> forall|k: int| 0 <= k < 9 ==> !#[trigger] cand_at(*g, u as int, k, d as int),
        r matches Some((k, i)) ==> k < 9 && i == unit_cell(u as int, k as int) && cand_at(*g, u as int, k as int, d as int),
{
    let mut k: usize = 0;
    while k < 9
        invariant
            k <= 9,
            u < 27,
            d < 16,
            forall|j: int| 0 <= j < k ==> !#[trigger] cand_at(*g, u as int, j, d as int),
        decreases 9 - k,
    {
        let i = unit_cell_idx(u, k);
        if g.cells[i] == 0 && test_bit(g.cands[i], d as u16) {
            return Some((k, i));
        }
        k = k + 1;
    }
    None
}

/// Whether every candidate cell for `d` in unit `u` lies in unit `v`.
fn confined(g: &Grid, u: usize, d: u8, v: usize) -> (r: bool)
    requires
        u < 27,
        v < 27,
        d < 16,
    ensures
        r == forall|k: int| 0 <= k < 9 && #[trigger] cand_at(*g, u as int, k, d as int) ==> in_unit(v as int, unit_cell(u as int, k)),
{
    let mut k: usize = 0;
    while k < 9
        invariant
            k <= 9,
            u < 27,
            v < 27,
            d < 16,
            forall|j: int| 0 <= j < k && #[trigger] cand_at(*g, u as int, j, d as int) ==> in_unit(v as int, unit_cell(u as int, j)),
        decreases 9 - k,
    {
        let i = unit_cell_idx(u, k);
        if g.cells[i] == 0 && test_bit(g.cands[i], d as u16) && !cell_in_unit(v, i) {
            assert(cand_at(*g, u as int, k as int, d as int));
            return false;
        }
        k = k + 1;
    }
    true
}

/// When all candidates for `d` in unit `u` lie in another unit `v`, no
/// solution has `d` in `v` outside `u`.
proof fn lemma_confined_sound(g: Grid, u: int, d: int, v: int)
    requires
        g.wf(),
        0 <= u < 27,
        0 <= v < 27,
        1 <= d <= 9,
        exists|k0: int| 0 <= k0 < 9 && #[trigger] cand_at(g, u, k0, d),
        forall|k: int| 0 <= k < 9 && #[trigger] cand_at(g, u, k, d) ==> in_unit(v, unit_cell(u, k)),
    ensures
        forall|sol: Seq<u8>, i: int| #[trigger] g.consistent(sol) && #[trigger] cleared(v, u, 81, 81, i) ==> sol[i] != d,
{
    assert forall|sol: Seq<u8>, i: int| #[trigger] g.consistent(sol) && #[trigger] cleared(v, u, 81, 81, i) implies sol[i] != d by {
        let k = lemma_digit_in_unit(g, sol, u, d);
        lemma_unit_cell(u, k);
        let c = unit_cell(u, k);
        assert(in_unit(v, c));
        assert(i != c);
        assert(peer(c, i));
    }
}

impl Grid {
    /// The outcome every rule promises: a sound step, a reported step that
    /// really removed a candidate, and no change when nothing was found.
    pub open spec fn rule_outcome(old: Grid, new: Grid, r: Option<Deduction>) -> bool {
        &&& sound_step(old, new)
        &&& r is Some ==> progressed(old, new)
        &&& r is None ==> new == old
    }

    /// The outcome of a rule that commits a digit: as `rule_outcome`, and a
    /// failure is a contradiction that shows the board has no solution.
    pub open spec fn single_outcome(old: Grid, new: Grid, r: Result<Option<Deduction>, SudokuError>) -> bool {
        &&& sound_step(old, new)
        &&& r matches Ok(Some(_)) ==> progressed(old, new)
        &&& r matches Ok(None) ==> new == old
        &&& r is Err ==> r == Err::<Option<Deduction>, SudokuError>(SudokuError::Contradiction)
            && forall|sol: Seq<u8>| !#[trigger] old.consistent(sol)
    }

    /// Commits digit `d` at empty cell `i`, where every solution of the board
    /// has `d`.
    fn commit_forced(&mut self, i: usize, d: u8) -> (r: Result<(), SudokuError>)
        requires
            old(self).wf(),
            i < 81,
            1 <= d <= 9,
            old(self).cells@[i as int] == 0,
            has_bit(old(self).cands@[i as int], d as u16),
            forall|sol: Seq<u8>| #[trigger] old(self).consistent(sol) ==> sol[i as int] == d,
        ensures
            sound_step(*old(self), *final(self)),
            progressed(*old(self), *final(self)),
            final(self).cells@[i as int] == d,
            r is Err ==> r == Err::<(), SudokuError>(SudokuError::Contradiction)
                && forall|sol: Seq<u8>| !#[trigger] old(self).consistent(sol),
    {
        let ghost g0 = *self;
        assert((i / 9) * 9 + i % 9 == i);
        let r = self.set(Pos { r: i / 9, c: i % 9 }, d);
        proof {
            assert forall|sol: Seq<u8>| #[trigger] g0.consistent(sol) implies self.consistent(sol) by {
                Grid::lemma_place_keeps_solution(g0, *self, i as int, sol);
            }
            if r is Err {
                assert forall|sol: Seq<u8>| !#[trigger] g0.consistent(sol) by {
                    if g0.consistent(sol) {
                        Grid::lemma_place_keeps_solution(g0, *self, i as int, sol);
                        let q = choose|q: int| peer(i as int, q) && #[trigger] self.cells@[q] == 0 && self.cands@[q] == 0;
                        lemma_zero_mask(sol[q] as u16);
                    }
                }
            }
            lemma_zero_mask(d as u16);
            assert(!has_bit(self.cands@[i as int], d as u16));
        }
        r
    }
}

/// Naked single: the first empty cell, in row-major order, with exactly one
/// candidate gets that digit.
pub fn naked_single(grid: &mut Grid) -> (r: Result<Option<Deduction>, SudokuError>)
    requires
        old(grid).wf(),
    ensures
        Grid::single_outcome(*old(grid), *final(grid), r),
        r matches Ok(Some(d)) ==> d.kind == StrategyKind::NakedSingle && d.first < 81 && naked_single_at(*old(grid), d.first as int)
            && (forall|j: int| 0 <= j < d.first ==> !#[trigger] naked_single_at(*old(grid), j))
            && final(grid).cells@[d.first as int] != 0,
        r matches Ok(None) ==> forall|i: int| 0 <= i < 81 ==> !#[trigger] naked_single_at(*old(grid), i),
{
    let mut i: usize = 0;
    while i < 81
        invariant
            i <= 81,
            grid.wf(),
            *grid == *old(grid),
            forall|k: int| 0 <= k < i ==> !#[trigger] naked_single_at(*grid, k),
        decreases 81 - i,
    {
        let m = grid.cands[i];
        proof {
            if naked_single_at(*grid, i as int) {
                let d = choose|d: u16| d < 16 && #[trigger] exact_one(m, d);
                assert(has_bit(m, d));
                assert forall|e: u16| e < 16 implies !#[trigger] has_bit(without(m, d), e) by {
                    lemma_without(m, d, e);
                }
                crate::bits::lemma_no_bits_zero(without(m, d));
                assert forall|e: u16| e < 16 && e < d implies !#[trigger] has_bit(m, e) by {}
            }
        }
        if grid.cells[i] == 0 {
            if let Some(t) = first_bit(m) {
                if clear_bit(m, t as u16) == 0 {
                    let ghost g0 = *grid;
                    proof {
                        assert(1 <= t <= 9);
                        assert forall|sol: Seq<u8>| #[trigger] g0.consistent(sol) implies sol[i as int] == t by {
                            let s = sol[i as int] as u16;
                            lemma_without(m, t as u16, s);
                            lemma_zero_mask(s);
                        }
                        assert forall|e: u16| e < 16 implies (#[trigger] has_bit(m, e) <==> e == t as u16) by {
                            lemma_without(m, t as u16, e);
                            lemma_zero_mask(e);
                        }
                        assert(exact_one(g0.cands@[i as int], t as u16));
                    }
                    let res = grid.commit_forced(i, t);
                    return match res {
                        Ok(()) => Ok(
                            Some(
                                Deduction {
                                    kind: StrategyKind::NakedSingle,
                                    digits: 1u16 << (t as u16),
                                    unit: row_unit(i),
                                    first: i,
                                    second: i,
                                },
                            ),
                        ),
                        Err(e) => Err(e),
                    };
                }
            }
        }
        i = i + 1;
    }
    proof {
        Grid::lemma_narrows_refl(*grid);
    }
    Ok(None)
}


/// The only cell of unit `u` where `d` is a candidate, with its position.
fn sole_candidate(g: &Grid, u: usize, d: u8) -> (r: Option<(usize, usize)>)
    requires
        u < 27,
        d < 16,
    ensures
        r matches Some((k, i)) ==> k < 9 && i == unit_cell(u as int, k as int) && cand_at(*g, u as int, k as int, d as int)
            && forall|j: int| 0 <= j < 9 && #[trigger] cand_at(*g, u as int, j, d as int) ==> j == k,
        r is None ==> !hidden_single_at(*g, u as int, d as int),
{
    let mut cnt: usize = 0;
    let mut found: usize = 0;
    let mut other: usize = 0;
    let mut k: usize = 0;
    while k < 9
        invariant
            k <= 9,
            u < 27,
            d < 16,
            cnt <= 2,
            cnt == 0 ==> forall|j: int| 0 <= j < k ==> !#[trigger] cand_at(*g, u as int, j, d as int),
            cnt >= 1 ==> found < k && cand_at(*g, u as int, found as int, d as int),
            cnt == 1 ==> forall|j: int| 0 <= j < k && #[trigger] cand_at(*g, u as int, j, d as int) ==> j == found,
            cnt == 2 ==> found < other < k && cand_at(*g, u as int, other as int, d as int),
        decreases 9 - k,
    {
        let i = unit_cell_idx(u, k);
        if g.cells[i] == 0 && test_bit(g.cands[i], d as u16) {
            if cnt == 0 {
                found = k;
                cnt = 1;
            } else if cnt == 1 {
                other = k;
                cnt = 2;
            }
        }
        k = k + 1;
    }
    if cnt == 1 {
        Some((found, unit_cell_idx(u, found)))
    } else {
        proof {
            if hidden_single_at(*g, u as int, d as int) {
                let kk = choose|kk: int| 0 <= kk < 9 && #[trigger] cand_at(*g, u as int, kk, d as int) && forall|j: int| 0 <= j < 9 && #[trigger] cand_at(*g, u as int, j, d as int) ==> j == kk;
                assert(cand_at(*g, u as int, kk, d as int));
            }
        }
        None
    }
}

/// Hidden single: the first unit (rows, then columns, then boxes) and digit
/// with exactly one candidate cell in that unit gets the digit there.
pub fn hidden_single(grid: &mut Grid) -> (r: Result<Option<Deduction>, SudokuError>)
    requires
        old(grid).wf(),
    ensures
        Grid::single_outcome(*old(grid), *final(grid), r),
        r matches Ok(Some(x)) ==> hidden_report(*old(grid), x),
        r matches Ok(Some(x)) ==> x.kind == StrategyKind::HiddenSingle && x.first < 81 && x.unit < 27 && in_unit(x.unit as int, x.first as int)
            && old(grid).cells@[x.first as int] == 0 && final(grid).cells@[x.first as int] != 0,
        r matches Ok(None) ==> forall|u: int, d: int| 0 <= u < 27 && 1 <= d <= 9 ==> !#[trigger] hidden_single_at(*old(grid), u, d),
{
    let mut u: usize = 0;
    while u < 27
        invariant
            u <= 27,
            grid.wf(),
            *grid == *old(grid),
            forall|u2: int, d2: int| 0 <= u2 < u && 1 <= d2 <= 9 ==> !#[trigger] hidden_single_at(*grid, u2, d2),
        decreases 27 - u,
    {
        let mut d: u8 = 1;
        while d <= 9
            invariant
                1 <= d <= 10,
                u < 27,
                grid.wf(),
                *grid == *old(grid),
                forall|u2: int, d2: int| 0 <= u2 < u && 1 <= d2 <= 9 ==> !#[trigger] hidden_single_at(*grid, u2, d2),
                forall|d2: int| 1 <= d2 < d ==> !#[trigger] hidden_single_at(*grid, u as int, d2),
            decreases 10 - d,
        {
            if let Some((k, i)) = sole_candidate(grid, u, d) {
                let ghost g0 = *grid;
                proof {
                    lemma_unit_cell(u as int, k as int);
                    assert forall|sol: Seq<u8>| #[trigger] g0.consistent(sol) implies sol[i as int] == d by {
                        let k2 = lemma_digit_in_unit(g0, sol, u as int, d as int);
                    }
                }
                proof {
                    assert(cand_at(g0, u as int, k as int, d as int));
                    assert(hidden_single_at(g0, u as int, d as int));
                    assert(first_hidden(g0, u as int, (d as u16) as int));
                    assert(first_hidden(*old(grid), u as int, (d as u16) as int));
                    let x = Deduction {
                        kind: StrategyKind::HiddenSingle,
                        digits: 1u16 << (d as u16),
                        unit: u,
                        first: i,
                        second: i,
                    };
                    let dd = d as int;
                    assert(x.unit as int == u as int);
                    assert(((dd as u16) as int) == d as int);
                    assert(x.digits == 1u16 << (dd as u16));
                    assert(first_hidden(*old(grid), x.unit as int, dd));
                    assert(hidden_report(*old(grid), x));
                }
                let res = grid.commit_forced(i, d);
                return match res {
                    Ok(()) => Ok(
                        Some(
                            Deduction {
                                kind: StrategyKind::HiddenSingle,
                                digits: 1u16 << (d as u16),
                                unit: u,
                                first: i,
                                second: i,
                            },
                        ),
                    ),
                    Err(e) => Err(e),
                };
            }
            d = d + 1;
        }
        u = u + 1;
    }
    proof {
        Grid::lemma_narrows_refl(*grid);
    }
    Ok(None)
}

/// The two digits of a mask with exactly two bits set, and `None` for any
/// other mask.
pub(crate) fn two_digits(m: u16) -> (r: Option<(u8, u8)>)
    ensures
        r matches Some((x, y)) ==> x < y && y < 16 && exact_two(m, x as u16, y as u16),
        r is None ==> forall|x: u16, y: u16| x < y < 16 ==> !#[trigger] exact_two(m, x, y),
{
    match first_bit(m) {
        None => {
            proof {
                assert forall|x: u16, y: u16| x < y < 16 implies !#[trigger] exact_two(m, x, y) by {
                    lemma_zero_mask(x);
                }
            }
            None
        },
        Some(x) => {
            let m2 = clear_bit(m, x as u16);
            match first_bit(m2) {
                None => {
                    proof {
                        assert forall|a: u16, b: u16| a < b < 16 implies !#[trigger] exact_two(m, a, b) by {
                            if exact_two(m, a, b) {
                                lemma_zero_mask(a);
                                lemma_zero_mask(b);
                                assert(has_bit(m, a) && has_bit(m, b));
                            }
                        }
                    }
                    None
                },
                Some(y) => {
                    let m3 = clear_bit(m2, y as u16);
                    if m3 == 0 {
                        proof {
                            assert forall|e: u16| e < 16 implies (#[trigger] has_bit(m, e) <==> (e == x || e == y)) by {
                                lemma_without(m2, y as u16, e);
                                lemma_zero_mask(e);
                            }
                            assert(y != x);
                            if y < x {
                                assert(has_bit(m, y as u16));
                            }
                        }
                        Some((x, y))
                    } else {
                        proof {
                            assert forall|a: u16, b: u16| a < b < 16 implies !#[trigger] exact_two(m, a, b) by {
                                if exact_two(m, a, b) {
                                    if forall|e: u16| e < 16 ==> !#[trigger] has_bit(m3, e) {
                                        crate::bits::lemma_no_bits_zero(m3);
                                    }
                                    let z = choose|e: u16| e < 16 && #[trigger] has_bit(m3, e);
                                    assert(has_bit(m, z) && z != x && z != y);
                                    assert(has_bit(m, x as u16) && has_bit(m, y as u16) && x != y);
                                }
                            }
                        }
                        None
                    }
                },
            }
        },
    }
}

/// Naked pair: the first two cells of a unit (rows, then columns, then
/// boxes) that share the same two candidates, where removing both digits
/// from the unit's other cells changes something.
pub fn naked_pair(grid: &mut Grid) -> (r: Option<Deduction>)
    requires
        old(grid).wf(),
    ensures
        Grid::rule_outcome(*old(grid), *final(grid), r),
        r matches Some(x) ==> x.kind == StrategyKind::NakedPair && pair_report(*old(grid), x),
        r is None ==> forall|u: int, a: int, b: int| 0 <= u < 27 ==> !#[trigger] naked_pair_applies(*old(grid), u, a, b),
{
    let mut u: usize = 0;
    while u < 27
        invariant
            u <= 27,
            grid.wf(),
            *grid == *old(grid),
            forall|u2: int, a2: int, b2: int| 0 <= u2 < u ==> !#[trigger] naked_pair_applies(*grid, u2, a2, b2),
        decreases 27 - u,
    {
        let mut a: usize = 0;
        while a < 9
            invariant
                a <= 9,
                u < 27,
                grid.wf(),
                *grid == *old(grid),
                forall|u2: int, a2: int, b2: int| 0 <= u2 < u ==> !#[trigger] naked_pair_applies(*grid, u2, a2, b2),
                forall|a2: int, b2: int| a2 < a ==> !#[trigger] naked_pair_applies(*grid, u as int, a2, b2),
            decreases 9 - a,
        {
            let ca = unit_cell_idx(u, a);
            let m = grid.cands[ca];
            let mut done_a = false;
            if grid.cells[ca] == 0 {
                if let Some((x, y)) = two_digits(m) {
                    let mut b: usize = a + 1;
                    while b < 9
                        invariant
                            a < b <= 9,
                            u < 27,
                            ca == unit_cell(u as int, a as int),
                            ca < 81,
                            grid.wf(),
                            *grid == *old(grid),
                            grid.cells@[ca as int] == 0,
                            m == grid.cands@[ca as int],
                            x < y < 16,
                            exact_two(m, x as u16, y as u16),
                            forall|b2: int| a < b2 < b ==> !#[trigger] naked_pair_applies(*grid, u as int, a as int, b2),
                            forall|u2: int, a2: int, b2: int| 0 <= u2 < u ==> !#[trigger] naked_pair_applies(*grid, u2, a2, b2),
                            forall|a2: int, b2: int| a2 < a ==> !#[trigger] naked_pair_applies(*grid, u as int, a2, b2),
                        decreases 9 - b,
                    {
                        let cb = unit_cell_idx(u, b);
                        if grid.cells[cb] == 0 && grid.cands[cb] == m {
                            let ghost g0 = *grid;
                            proof {
                                lemma_unit_cell(u as int, a as int);
                                assert(ca != cb);
                                assert(has_bit(m, x as u16) && has_bit(m, y as u16));
                                assert(crate::grid::allowed(g0.cells@, ca as int, x as int));
                                assert(crate::grid::allowed(g0.cells@, ca as int, y as int));
                                lemma_pair_sound(g0, u as int, ca as int, cb as int, x as int, y as int);
                            }
                            let ch1 = clear_digit_in_unit(grid, x, u, 27, ca, cb);
                            let ghost g1 = *grid;
                            proof {
                                assert forall|sol: Seq<u8>, i: int|
                                    #[trigger] g1.consistent(sol) && #[trigger] cleared(u as int, 27, ca as int, cb as int, i)
                                    implies sol[i] != y by {
                                    lemma_consistent_back(g1, g0, sol);
                                }
                            }
                            let ch2 = clear_digit_in_unit(grid, y, u, 27, ca, cb);
                            proof {
                                lemma_sound_trans(g0, g1, *grid);
                                if ch1 {
                                    lemma_progress_trans(g0, g1, *grid);
                                }
                            }
                            if ch1 || ch2 {
                                proof {
                                    if !ch1 {
                                        assert(g1 == g0);
                                    }
                                    assert(exact_two(g0.cands@[ca as int], x as u16, y as u16));
                                    assert(naked_pair_applies(g0, u as int, a as int, b as int));
                                    assert(first_naked_pair(g0, u as int, a as int, b as int));
                                    assert(first_naked_pair(*old(grid), u as int, a as int, b as int));
                                    let x = Deduction {
                                        kind: StrategyKind::NakedPair,
                                        digits: m,
                                        unit: u,
                                        first: ca,
                                        second: cb,
                                    };
                                    assert(unit_cell(x.unit as int, a as int) == x.first as int);
                                    assert(unit_cell(x.unit as int, b as int) == x.second as int);
                                    assert(first_naked_pair(*old(grid), x.unit as int, a as int, b as int));
                                    assert(pair_report(*old(grid), x));
                                }
                                return Some(
                                    Deduction {
                                        kind: StrategyKind::NakedPair,
                                        digits: m,
                                        unit: u,
                                        first: ca,
                                        second: cb,
                                    },
                                );
                            }
                            proof {
                                if naked_pair_applies(*grid, u as int, a as int, b as int) {
                                    let (x2, y2) = choose|x2: u16, y2: u16|
                                        x2 < y2 < 16 && #[trigger] exact_two(m, x2, y2) && (clears_something(*grid, x2 as int, u as int, 27, ca as int, cb as int)
                                            || clears_something(*grid, y2 as int, u as int, 27, ca as int, cb as int));
                                    lemma_exact_two_unique(m, x as u16, y as u16, x2, y2);
                                }
                            }
                        }
                        b = b + 1;
                    }
                    proof {
                        assert forall|b2: int| !#[trigger] naked_pair_applies(*grid, u as int, a as int, b2) by {
                            if a < b2 < 9 {
                            }
                        }
                    }
                    done_a = true;
                }
            }
            proof {
                if !done_a {
                    assert forall|b2: int| !#[trigger] naked_pair_applies(*grid, u as int, a as int, b2) by {
                        if naked_pair_applies(*grid, u as int, a as int, b2) {
                            let (x2, y2) = choose|x2: u16, y2: u16|
                                x2 < y2 < 16 && #[trigger] exact_two(m, x2, y2) && (clears_something(*grid, x2 as int, u as int, 27, ca as int, unit_cell(u as int, b2))
                                    || clears_something(*grid, y2 as int, u as int, 27, ca as int, unit_cell(u as int, b2)));
                        }
                    }
                }
            }
            a = a + 1;
        }
        u = u + 1;
    }
    proof {
        Grid::lemma_narrows_refl(*grid);
    }
    None
}

/// A mask has one pair of bits at most.
proof fn lemma_exact_two_unique(m: u16, x: u16, y: u16, x2: u16, y2: u16)
    requires
        x < y < 16,
        x2 < y2 < 16,
        exact_two(m, x, y),
        exact_two(m, x2, y2),
    ensures
        x == x2 && y == y2,
{
    assert(has_bit(m, x2) && has_bit(m, y2));
    assert(has_bit(m, x) && has_bit(m, y));
}

/// Two cells of a unit with the same two candidates take both digits
/// between them, so no other cell of the unit can hold either.
proof fn lemma_pair_sound(g: Grid, u: int, ca: int, cb: int, x: int, y: int)
    requires
        g.wf(),
        0 <= u < 27,
        in_unit(u, ca),
        in_unit(u, cb),
        ca != cb,
        g.cells@[ca] == 0,
        g.cells@[cb] == 0,
        g.cands@[ca] == g.cands@[cb],
        0 <= x < 16,
        0 <= y < 16,
        forall|e: u16| e < 16 ==> (#[trigger] has_bit(g.cands@[ca], e) <==> (e == x || e == y)),
    ensures
        forall|sol: Seq<u8>, i: int| #[trigger] g.consistent(sol) && #[trigger] cleared(u, 27, ca, cb, i) ==> sol[i] != x && sol[i] != y,
{
    assert forall|sol: Seq<u8>, i: int| #[trigger] g.consistent(sol) && #[trigger] cleared(u, 27, ca, cb, i) implies sol[i] != x && sol[i] != y by {
        assert(sol[ca] == sol[ca] && sol[cb] == sol[cb]);
        assert(has_bit(g.cands@[ca], sol[ca] as u16));
        assert(has_bit(g.cands@[cb], sol[cb] as u16));
        assert(peer(ca, cb));
        assert(peer(ca, i));
        assert(peer(cb, i));
        assert(sol[i] != 0);
    }
}

/// Pointing pair or triple: the first box and digit (boxes in order, digits
/// ascending) whose candidates in the box all lie in one row, or else one
/// column, where removing the digit from the rest of that line changes
/// something.
pub fn pointing_pair_triple(grid: &mut Grid) -> (r: Option<Deduction>)
    requires
        old(grid).wf(),
    ensures
        Grid::rule_outcome(*old(grid), *final(grid), r),
        r matches Some(x) ==> x.kind == StrategyKind::PointingPair && locked_report(*old(grid), x, 18, 0, 18),
        r is None ==> forall|b: int, d: int, w: int|
            18 <= b < 27 && 1 <= d <= 9 && 0 <= w < 18 ==> !#[trigger] locked_applies(*old(grid), b, d, w),
{
    let mut b: usize = 18;
    while b < 27
        invariant
            18 <= b <= 27,
            grid.wf(),
            *grid == *old(grid),
            forall|b2: int, d2: int, w: int|
                18 <= b2 < b && 1 <= d2 <= 9 && 0 <= w < 18 ==> !#[trigger] locked_applies(*grid, b2, d2, w),
        decreases 27 - b,
    {
        let mut d: u8 = 1;
        while d <= 9
            invariant
                1 <= d <= 10,
                18 <= b < 27,
                grid.wf(),
                *grid == *old(grid),
                forall|b2: int, d2: int, w: int|
                    18 <= b2 < b && 1 <= d2 <= 9 && 0 <= w < 18 ==> !#[trigger] locked_applies(*grid, b2, d2, w),
                forall|d2: int, w: int| 1 <= d2 < d && 0 <= w < 18 ==> !#[trigger] locked_applies(*grid, b as int, d2, w),
            decreases 10 - d,
        {
            if let Some((k, p)) = first_candidate(grid, b, d) {
                let rv = row_unit(p);
                if confined(grid, b, d, rv) {
                    proof {
                        lemma_confined_sound(*grid, b as int, d as int, rv as int);
                    }
                    let ghost g0 = *grid;
                    if clear_digit_in_unit(grid, d, rv, b, 81, 81) {
                        proof {
                            assert(cand_at(g0, b as int, k as int, d as int));
                            assert(locked_applies(g0, b as int, d as int, rv as int));
                            assert(first_locked(g0, 18, b as int, (d as u16) as int, rv as int, 0, 18));
                            assert(first_locked(*old(grid), 18, b as int, (d as u16) as int, rv as int, 0, 18));
                            let x = Deduction {
                                kind: StrategyKind::PointingPair,
                                digits: 1u16 << (d as u16),
                                unit: b,
                                first: rv,
                                second: rv,
                            };
                            let dd = d as int;
                            assert(((dd as u16) as int) == d as int);
                            assert(x.digits == 1u16 << (dd as u16));
                            assert(first_locked(*old(grid), 18, x.unit as int, dd, x.first as int, 0, 18));
                            assert(locked_report(*old(grid), x, 18, 0, 18));
                        }
                        return Some(
                            Deduction {
                                kind: StrategyKind::PointingPair,
                                digits: 1u16 << (d as u16),
                                unit: b,
                                first: rv,
                                second: rv,
                            },
                        );
                    }
                }
                let cv = col_unit(p);
                if confined(grid, b, d, cv) {
                    proof {
                        lemma_confined_sound(*grid, b as int, d as int, cv as int);
                    }
                    let ghost g0 = *grid;
                    if clear_digit_in_unit(grid, d, cv, b, 81, 81) {
                        proof {
                            assert(cand_at(g0, b as int, k as int, d as int));
                            assert(locked_applies(g0, b as int, d as int, cv as int));
                            assert(first_locked(g0, 18, b as int, (d as u16) as int, cv as int, 0, 18));
                            assert(first_locked(*old(grid), 18, b as int, (d as u16) as int, cv as int, 0, 18));
                            let x = Deduction {
                                kind: StrategyKind::PointingPair,
                                digits: 1u16 << (d as u16),
                                unit: b,
                                first: cv,
                                second: cv,
                            };
                            let dd = d as int;
                            assert(((dd as u16) as int) == d as int);
                            assert(x.digits == 1u16 << (dd as u16));
                            assert(first_locked(*old(grid), 18, x.unit as int, dd, x.first as int, 0, 18));
                            assert(locked_report(*old(grid), x, 18, 0, 18));
                        }
                        return Some(
                            Deduction {
                                kind: StrategyKind::PointingPair,
                                digits: 1u16 << (d as u16),
                                unit: b,
                                first: cv,
                                second: cv,
                            },
                        );
                    }
                }
                proof {
                    assert forall|w: int| 0 <= w < 18 implies !#[trigger] locked_applies(*grid, b as int, d as int, w) by {
                        if locked_applies(*grid, b as int, d as int, w) {
                            assert(cand_at(*grid, b as int, k as int, d as int));
                            assert(in_unit(w, p as int));
                            if w < 9 {
                                assert(w == rv);
                            } else {
                                assert(w == cv);
                            }
                        }
                    }
                }
            }
            d = d + 1;
        }
        b = b + 1;
    }
    proof {
        Grid::lemma_narrows_refl(*grid);
    }
    None
}

/// Box-line reduction: the first line (rows, then columns) and digit whose
/// candidates on the line all lie in one box, where removing the digit from
/// the rest of that box changes something.
pub fn box_line_reduction(grid: &mut Grid) -> (r: Option<Deduction>)
    requires
        old(grid).wf(),
    ensures
        Grid::rule_outcome(*old(grid), *final(grid), r),
        r matches Some(x) ==> x.kind == StrategyKind::BoxLineReduction && locked_report(*old(grid), x, 0, 18, 27),
        r is None ==> forall|u: int, d: int, w: int|
            0 <= u < 18 && 1 <= d <= 9 && 18 <= w < 27 ==> !#[trigger] locked_applies(*old(grid), u, d, w),
{
    let mut u: usize = 0;
    while u < 18
        invariant
            u <= 18,
            grid.wf(),
            *grid == *old(grid),
            forall|u2: int, d2: int, w: int|
                0 <= u2 < u && 1 <= d2 <= 9 && 18 <= w < 27 ==> !#[trigger] locked_applies(*grid, u2, d2, w),
        decreases 18 - u,
    {
        let mut d: u8 = 1;
        while d <= 9
            invariant
                1 <= d <= 10,
                u < 18,
                grid.wf(),
                *grid == *old(grid),
                forall|u2: int, d2: int, w: int|
                    0 <= u2 < u && 1 <= d2 <= 9 && 18 <= w < 27 ==> !#[trigger] locked_applies(*grid, u2, d2, w),
                forall|d2: int, w: int| 1 <= d2 < d && 18 <= w < 27 ==> !#[trigger] locked_applies(*grid, u as int, d2, w),
            decreases 10 - d,
        {
            if let Some((k, p)) = first_candidate(grid, u, d) {
                let bv = box_unit(p);
                if confined(grid, u, d, bv) {
                    proof {
                        lemma_confined_sound(*grid, u as int, d as int, bv as int);
                    }
                    let ghost g0 = *grid;
                    if clear_digit_in_unit(grid, d, bv, u, 81, 81) {
                        proof {
                            assert(cand_at(g0, u as int, k as int, d as int));
                            assert(locked_applies(g0, u as int, d as int, bv as int));
                            assert(first_locked(g0, 0, u as int, (d as u16) as int, bv as int, 18, 27));
                            assert(first_locked(*old(grid), 0, u as int, (d as u16) as int, bv as int, 18, 27));
                            let x = Deduction {
                                kind: StrategyKind::BoxLineReduction,
                                digits: 1u16 << (d as u16),
                                unit: u,
                                first: bv,
                                second: bv,
                            };
                            let dd = d as int;
                            assert(((dd as u16) as int) == d as int);
                            assert(x.digits == 1u16 << (dd as u16));
                            assert(first_locked(*old(grid), 0, x.unit as int, dd, x.first as int, 18, 27));
                            assert(locked_report(*old(grid), x, 0, 18, 27));
                        }
                        return Some(
                            Deduction {
                                kind: StrategyKind::BoxLineReduction,
                                digits: 1u16 << (d as u16),
                                unit: u,
                                first: bv,
                                second: bv,
                            },
                        );
                    }
                }
                proof {
                    assert forall|w: int| 18 <= w < 27 implies !#[trigger] locked_applies(*grid, u as int, d as int, w) by {
                        if locked_applies(*grid, u as int, d as int, w) {
                            assert(cand_at(*grid, u as int, k as int, d as int));
                            assert(in_unit(w, p as int));
                            assert(w == bv);
                        }
                    }
                }
            }
            d = d + 1;
        }
        u = u + 1;
    }
    proof {
        Grid::lemma_narrows_refl(*grid);
    }
    None
}

/// The two positions of unit `u` where `d` is a candidate, when there are
/// exactly two.
fn two_positions(g: &Grid, u: usize, d: u8) -> (r: Option<(usize, usize)>)
    requires
        u < 27,
        d < 16,
    ensures
        r matches Some((k1, k2)) ==> two_spots(*g, u as int, d as int, k1 as int, k2 as int),
        r is None ==> forall|k1: int, k2: int| !#[trigger] two_spots(*g, u as int, d as int, k1, k2),
{
    let mut cnt: usize = 0;
    let mut k1: usize = 0;
    let mut k2: usize = 0;
    let mut k3: usize = 0;
    let mut k: usize = 0;
    while k < 9
        invariant
            k <= 9,
            u < 27,
            d < 16,
            cnt <= 3,
            cnt >= 1 ==> k1 < k && cand_at(*g, u as int, k1 as int, d as int),
            cnt >= 2 ==> k1 < k2 < k && cand_at(*g, u as int, k2 as int, d as int),
            cnt == 0 ==> forall|j: int| 0 <= j < k ==> !#[trigger] cand_at(*g, u as int, j, d as int),
            cnt == 1 ==> forall|j: int| 0 <= j < k && #[trigger] cand_at(*g, u as int, j, d as int) ==> j == k1,
            cnt == 2 ==> forall|j: int| 0 <= j < k && #[trigger] cand_at(*g, u as int, j, d as int) ==> j == k1 || j == k2,
            cnt == 3 ==> k2 < k3 < k && cand_at(*g, u as int, k3 as int, d as int),
        decreases 9 - k,
    {
        let i = unit_cell_idx(u, k);
        if g.cells[i] == 0 && test_bit(g.cands[i], d as u16) {
            if cnt == 0 {
                k1 = k;
                cnt = 1;
            } else if cnt == 1 {
                k2 = k;
                cnt = 2;
            } else if cnt == 2 {
                k3 = k;
                cnt = 3;
            }
        }
        k = k + 1;
    }
    if cnt == 2 {
        Some((k1, k2))
    } else {
        proof {
            assert forall|a: int, b: int| !#[trigger] two_spots(*g, u as int, d as int, a, b) by {
                if two_spots(*g, u as int, d as int, a, b) {
                    assert(cand_at(*g, u as int, a, d as int));
                    assert(cand_at(*g, u as int, b, d as int));
                }
            }
        }
        None
    }
}

/// The two candidate positions of a digit in a unit are determined.
proof fn lemma_two_spots_unique_all(g: Grid, u: int, d: int, k1: int, k2: int)
    requires
        two_spots(g, u, d, k1, k2),
    ensures
        forall|a: int, b: int| #[trigger] two_spots(g, u, d, a, b) ==> a == k1 && b == k2,
{
    assert forall|a: int, b: int| #[trigger] two_spots(g, u, d, a, b) implies a == k1 && b == k2 by {
        assert(cand_at(g, u, a, d) && cand_at(g, u, b, d));
        assert(cand_at(g, u, k1, d) && cand_at(g, u, k2, d));
    }
}

/// The unit crossing position `k` of the lines of a family: the column `k`
/// for rows (`base` 0), the row `k` for columns (`base` 9).
pub open spec fn cross_unit(base: int, k: int) -> int {
    if base == 0 {
        9 + k
    } else {
        k
    }
}

/// In an X-Wing, each of the two lines holds the digit at one of the two
/// shared positions, in different positions, so no other cell of the two
/// crossing units can hold it.
proof fn lemma_xwing_sound(g: Grid, base: int, u1: int, u2: int, k1: int, k2: int, d: int, kk: int)
    requires
        g.wf(),
        base == 0 || base == 9,
        base <= u1 < u2 < base + 9,
        0 <= k1 < k2 < 9,
        kk == k1 || kk == k2,
        1 <= d <= 9,
        cand_at(g, u1, k1, d),
        cand_at(g, u2, k1, d),
        forall|j: int| 0 <= j < 9 && #[trigger] cand_at(g, u1, j, d) ==> j == k1 || j == k2,
        forall|j: int| 0 <= j < 9 && #[trigger] cand_at(g, u2, j, d) ==> j == k1 || j == k2,
    ensures
        forall|sol: Seq<u8>, i: int|
            #[trigger] g.consistent(sol) && #[trigger] cleared(cross_unit(base, kk), 27, unit_cell(u1, kk), unit_cell(u2, kk), i)
                ==> sol[i] != d,
{
    assert forall|sol: Seq<u8>, i: int|
        #[trigger] g.consistent(sol) && #[trigger] cleared(cross_unit(base, kk), 27, unit_cell(u1, kk), unit_cell(u2, kk), i)
        implies sol[i] != d by {
        let ka = lemma_digit_in_unit(g, sol, u1, d);
        let kb = lemma_digit_in_unit(g, sol, u2, d);
        let wa = unit_cell(u1, ka);
        let wb = unit_cell(u2, kb);
        lemma_unit_cell(u1, ka);
        lemma_unit_cell(u2, kb);
        if ka == kb {
            assert(in_unit(cross_unit(base, ka), wa));
            assert(in_unit(cross_unit(base, ka), wb));
            assert(wa != wb);
            assert(peer(wa, wb));
        }
        if kk == ka {
            assert(in_unit(cross_unit(base, kk), wa));
            assert(peer(wa, i));
        } else {
            assert(kk == kb);
            assert(in_unit(cross_unit(base, kk), wb));
            assert(peer(wb, i));
        }
    }
}

/// Looks for an X-Wing on digit `d` among the rows (`base` 0) or the
/// columns (`base` 9): two lines whose candidates for `d` are exactly the
/// same two positions; the digit is removed from those two crossing units
/// outside the two lines.
fn x_wing_family(grid: &mut Grid, d: u8, base: usize) -> (r: Option<Deduction>)
    requires
        old(grid).wf(),
        1 <= d <= 9,
        base == 0 || base == 9,
    ensures
        Grid::rule_outcome(*old(grid), *final(grid), r),
        r matches Some(x) ==> x.kind == StrategyKind::XWing && family_first(*old(grid), base as int, d as int, x),
        r is None ==> forall|u1: int, u2: int| !#[trigger] xwing_applies(*old(grid), base as int, u1, u2, d as int),
{
    let mut u1: usize = base;
    while u1 < base + 9
        invariant
            base <= u1 <= base + 9,
            base == 0 || base == 9,
            1 <= d <= 9,
            grid.wf(),
            *grid == *old(grid),
            forall|v1: int, v2: int| v1 < u1 ==> !#[trigger] xwing_applies(*grid, base as int, v1, v2, d as int),
        decreases base + 9 - u1,
    {
        let pos1 = two_positions(grid, u1, d);
        if let Some((k1, k2)) = pos1 {
            let mut u2: usize = u1 + 1;
            while u2 < base + 9
                invariant
                    u1 < u2 <= base + 9,
                    base <= u1 < base + 9,
                    base == 0 || base == 9,
                    1 <= d <= 9,
                    k1 < k2 < 9,
                    two_spots(*grid, u1 as int, d as int, k1 as int, k2 as int),
                    cand_at(*grid, u1 as int, k1 as int, d as int),
                    cand_at(*grid, u1 as int, k2 as int, d as int),
                    forall|j: int| 0 <= j < 9 && #[trigger] cand_at(*grid, u1 as int, j, d as int) ==> j == k1 || j == k2,
                    grid.wf(),
                    *grid == *old(grid),
                    forall|v1: int, v2: int| v1 < u1 ==> !#[trigger] xwing_applies(*grid, base as int, v1, v2, d as int),
                    forall|v2: int| v2 < u2 ==> !#[trigger] xwing_applies(*grid, base as int, u1 as int, v2, d as int),
                decreases base + 9 - u2,
            {
                let pos2 = two_positions(grid, u2, d);
                proof {
                    lemma_two_spots_unique_all(*grid, u1 as int, d as int, k1 as int, k2 as int);
                }
                if let Some((j1, j2)) = pos2 {
                    if j1 == k1 && j2 == k2 {
                        let ghost g0 = *grid;
                        let x1 = if base == 0 { 9 + k1 } else { k1 };
                        let x2 = if base == 0 { 9 + k2 } else { k2 };
                        let a1 = unit_cell_idx(u1, k1);
                        let b1 = unit_cell_idx(u2, k1);
                        let a2 = unit_cell_idx(u1, k2);
                        let b2 = unit_cell_idx(u2, k2);
                        proof {
                            lemma_xwing_sound(g0, base as int, u1 as int, u2 as int, k1 as int, k2 as int, d as int, k1 as int);
                            lemma_xwing_sound(g0, base as int, u1 as int, u2 as int, k1 as int, k2 as int, d as int, k2 as int);
                            assert(x1 as int == cross_unit(base as int, k1 as int));
                            assert(x2 as int == cross_unit(base as int, k2 as int));
                            assert forall|sol: Seq<u8>, i: int|
                                #[trigger] g0.consistent(sol) && #[trigger] cleared(x1 as int, 27, a1 as int, b1 as int, i)
                                implies sol[i] != d by {
                                assert(cleared(cross_unit(base as int, k1 as int), 27, unit_cell(u1 as int, k1 as int), unit_cell(u2 as int, k1 as int), i));
                            }
                            assert forall|sol: Seq<u8>, i: int|
                                #[trigger] g0.consistent(sol) && #[trigger] cleared(x2 as int, 27, a2 as int, b2 as int, i)
                                implies sol[i] != d by {
                                assert(cleared(cross_unit(base as int, k2 as int), 27, unit_cell(u1 as int, k2 as int), unit_cell(u2 as int, k2 as int), i));
                            }
                        }
                        let ch1 = clear_digit_in_unit(grid, d, x1, 27, a1, b1);
                        let ghost g1 = *grid;
                        proof {
                            assert forall|sol: Seq<u8>, i: int|
                                #[trigger] g1.consistent(sol) && #[trigger] cleared(x2 as int, 27, a2 as int, b2 as int, i)
                                implies sol[i] != d by {
                                lemma_consistent_back(g1, g0, sol);
                            }
                        }
                        let ch2 = clear_digit_in_unit(grid, d, x2, 27, a2, b2);
                        proof {
                            lemma_sound_trans(g0, g1, *grid);
                            if ch1 {
                                lemma_progress_trans(g0, g1, *grid);
                            }
                        }
                        if ch1 || ch2 {
                            let x = Deduction {
                                kind: StrategyKind::XWing,
                                digits: 1u16 << (d as u16),
                                unit: if base == 0 { 0 } else { 1 },
                                first: u1,
                                second: u2,
                            };
                            proof {
                                if !ch1 {
                                    assert(g1 == g0);
                                }
                                assert(two_spots(g0, u1 as int, d as int, k1 as int, k2 as int));
                                assert(two_spots(g0, u2 as int, d as int, k1 as int, k2 as int));
                                assert(xwing_applies(g0, base as int, u1 as int, u2 as int, d as int));
                                assert(family_first(*old(grid), base as int, d as int, x));
                            }
                            return Some(x);
                        }
                    }
                }
                proof {
                    if xwing_applies(*grid, base as int, u1 as int, u2 as int, d as int) {
                        let (a, b) = choose|a: int, b: int|
                            #[trigger] two_spots(*grid, u1 as int, d as int, a, b) && #[trigger] two_spots(*grid, u2 as int, d as int, a, b)
                                && (clears_something(*grid, d as int, cross_unit(base as int, a), 27, unit_cell(u1 as int, a), unit_cell(u2 as int, a))
                                || clears_something(*grid, d as int, cross_unit(base as int, b), 27, unit_cell(u1 as int, b), unit_cell(u2 as int, b)));
                        assert(a == k1 && b == k2);
                        if let Some((j1, j2)) = pos2 {
                            lemma_two_spots_unique_all(*grid, u2 as int, d as int, j1 as int, j2 as int);
                        }
                    }
                }
                u2 = u2 + 1;
            }
            proof {
                assert forall|v2: int| !#[trigger] xwing_applies(*grid, base as int, u1 as int, v2, d as int) by {
                    if v2 >= u2 {
                    }
                }
            }
        } else {
            proof {
                assert forall|v2: int| !#[trigger] xwing_applies(*grid, base as int, u1 as int, v2, d as int) by {
                    if xwing_applies(*grid, base as int, u1 as int, v2, d as int) {
                        let (a, b) = choose|a: int, b: int|
                            #[trigger] two_spots(*grid, u1 as int, d as int, a, b) && #[trigger] two_spots(*grid, v2, d as int, a, b)
                                && (clears_something(*grid, d as int, cross_unit(base as int, a), 27, unit_cell(u1 as int, a), unit_cell(v2, a))
                                || clears_something(*grid, d as int, cross_unit(base as int, b), 27, unit_cell(u1 as int, b), unit_cell(v2, b)));
                    }
                }
            }
        }
        u1 = u1 + 1;
    }
    proof {
        Grid::lemma_narrows_refl(*grid);
    }
    None
}

/// X-Wing: for each digit in ascending order, first on rows and then on
/// columns, the first X-Wing whose eliminations change something.
pub fn x_wing(grid: &mut Grid) -> (r: Option<Deduction>)
    requires
        old(grid).wf(),
    ensures
        Grid::rule_outcome(*old(grid), *final(grid), r),
        r matches Some(x) ==> x.kind == StrategyKind::XWing && xwing_report(*old(grid), x),
        r is None ==> forall|base: int, u1: int, u2: int, d: int|
            (base == 0 || base == 9) && 1 <= d <= 9 ==> !#[trigger] xwing_applies(*old(grid), base, u1, u2, d),
{
    let mut d: u8 = 1;
    while d <= 9
        invariant
            1 <= d <= 10,
            grid.wf(),
            *grid == *old(grid),
            forall|base: int, u1: int, u2: int, d2: int|
                (base == 0 || base == 9) && 1 <= d2 < d ==> !#[trigger] xwing_applies(*grid, base, u1, u2, d2),
        decreases 10 - d,
    {
        let r = x_wing_family(grid, d, 0);
        if let Some(x) = r {
            proof {
                assert(family_first(*old(grid), 0, d as int, x));
                assert(family_first(*old(grid), family_base(x.unit), d as int, x));
                assert(xwing_report(*old(grid), x));
            }
            return r;
        }
        let r = x_wing_family(grid, d, 9);
        if let Some(x) = r {
            proof {
                assert(family_first(*old(grid), 9, d as int, x));
                assert(family_first(*old(grid), family_base(x.unit), d as int, x));
                assert(xwing_report(*old(grid), x));
            }
            return r;
        }
        d = d + 1;
    }
    proof {
        Grid::lemma_narrows_refl(*grid);
    }
    None
}


/// A sound step that removed a candidate lowers the total candidate count.
pub proof fn lemma_progress_measure(old: Grid, new: Grid)
    requires
        old.wf(),
        sound_step(old, new),
        progressed(old, new),
    ensures
        crate::bits::pop_sum(new.cands@, 81) < crate::bits::pop_sum(old.cands@, 81),
{
    let (k, e) = choose|k: int, e: u16|
        0 <= k < 81 && e < 16 && #[trigger] has_bit(old.cands@[k], e) && !has_bit(new.cands@[k], e);
    assert forall|i: int| 0 <= i < 81 implies subset_mask(#[trigger] new.cands@[i], old.cands@[i]) by {
        if new.cells@[i] != 0 {
            assert(new.cands@[i] == 0);
            assert forall|f: u16| f < 16 && #[trigger] has_bit(new.cands@[i], f) implies has_bit(old.cands@[i], f) by {
                lemma_zero_mask(f);
            }
        } else {
            assert(new.cells@[i] == new.cells@[i]);
            if old.cells@[i] != 0 {
                assert(new.cells@[i] == old.cells@[i]);
            }
        }
    }
    crate::bits::lemma_pop_sum_strict(new.cands@, old.cands@, 81, k, e);
}

} // verus!

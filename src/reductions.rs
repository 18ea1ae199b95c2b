//! Candidate reductions seen from a single cell of a [`Board`]: locked
//! candidates (pointing and claiming) and naked pairs, applied until a
//! single candidate may remain.
use vstd::prelude::*;
use crate::bits::{
    clear_bit, exact_one, exact_two, first_bit, has_bit, lemma_and_not, lemma_mask_ext, lemma_subset_popcount_strict,
    lemma_with_bit, lemma_zero_mask, popcount, subset_mask, test_bit, without,
};
use crate::board::Board;
use crate::grid::{allowed, peer};
use crate::puzzle::lemma_completion_allowed;
use crate::solver::is_completion;
use crate::units::{
    box_unit, cell_in_unit, col_unit, in_unit, lemma_unit_cell, lemma_unit_has_digit, lemma_unit_pos,
    row_unit, unit_cell, unit_cell_idx,
};

verus! {

/// `m` has bit `e` exactly for the digits 1..=9 that `cand` marks.
pub open spec fn mask_of(cand: Seq<bool>, m: u16) -> bool {
    forall|e: u16| e < 16 ==> (#[trigger] has_bit(m, e) <==> (1 <= e <= 9 && cand[e as int]))
}

/// `m` has exactly two bits set.
pub open spec fn two_bits(m: u16) -> bool {
    exists|x: u16, y: u16| x < y < 16 && #[trigger] exact_two(m, x, y)
}

/// Number of the first `n` cells of a unit whose candidates are exactly `pm`.
pub open spec fn count_with_mask(unit: Seq<Seq<bool>>, pm: u16, n: int) -> nat
    decreases n,
{
    if n <= 0 {
        0
    } else {
        count_with_mask(unit, pm, n - 1) + if mask_of(unit[n - 1], pm) { 1nat } else { 0nat }
    }
}

/// `pm` is a naked pair of the unit: two digits that are the whole
/// candidate set of exactly two of its cells.
pub open spec fn pair_mask(unit: Seq<Seq<bool>>, pm: u16) -> bool {
    two_bits(pm) && count_with_mask(unit, pm, 9) == 2
}

/// Digit `e` belongs to a naked pair of the unit whose digits do not cover
/// all of `cur` (a pair that covers `cur` may be the cell's own).
pub open spec fn removed_by_pairs(unit: Seq<Seq<bool>>, cur: u16, e: u16) -> bool {
    exists|pm: u16| #[trigger] pair_mask(unit, pm) && !subset_mask(cur, pm) && has_bit(pm, e)
}

/// The candidate mask of a `[bool; 10]` candidate array.
pub fn mask_from_candidates(cand: [bool; 10]) -> (m: u16)
    ensures
        mask_of(cand@, m),
{
    let mut m: u16 = 0;
    let mut v: u16 = 1;
    proof {
        assert forall|e: u16| e < 16 implies !#[trigger] has_bit(0u16, e) by {
            lemma_zero_mask(e);
        }
    }
    while v <= 9
        invariant
            1 <= v <= 10,
            forall|e: u16| e < 16 ==> (#[trigger] has_bit(m, e) <==> (1 <= e < v && cand@[e as int])),
        decreases 10 - v,
    {
        if cand[v as usize] {
            proof {
                assert forall|e: u16| e < 16 implies (#[trigger] has_bit(m | (1u16 << v), e) <==> (1 <= e < v + 1 && cand@[e as int])) by {
                    lemma_with_bit(m, v, e);
                }
            }
            m = m | (1u16 << v);
        }
        v = v + 1;
    }
    m
}

/// `m & !p` is zero exactly when every bit of `m` is in `p`.
proof fn lemma_outside_zero(m: u16, p: u16)
    ensures
        (m & !p == 0) <==> subset_mask(m, p),
{
    if subset_mask(m, p) {
        assert forall|e: u16| e < 16 implies !#[trigger] has_bit(m & !p, e) by {
            crate::bits::lemma_and_not(m, p, e);
        }
        crate::bits::lemma_no_bits_zero(m & !p);
    } else {
        let e = choose|e: u16| e < 16 && #[trigger] has_bit(m, e) && !has_bit(p, e);
        crate::bits::lemma_and_not(m, p, e);
        if m & !p == 0 {
            lemma_zero_mask(e);
        }
    }
}

proof fn lemma_count_positive(unit: Seq<Seq<bool>>, pm: u16, n: int)
    requires
        0 <= n,
        count_with_mask(unit, pm, n) > 0,
    ensures
        exists|k: int| 0 <= k < n && #[trigger] mask_of(unit[k], pm),
    decreases n,
{
    if !mask_of(unit[n - 1], pm) {
        lemma_count_positive(unit, pm, n - 1);
    }
}

/// Removes from `current_mask` every digit of a naked pair of the unit,
/// except a pair that holds every digit of `current_mask`: such a pair may
/// be the cell itself, or the cell has no solution digit left anyway.
pub fn reduce_by_naked_pairs_unit(current_mask: u16, unit_cands: [[bool; 10]; 9]) -> (r: u16)
    ensures
        forall|e: u16| e < 16 ==> (#[trigger] has_bit(r, e) <==> (has_bit(current_mask, e)
            && !removed_by_pairs(unit_cands@.map_values(|c: [bool; 10]| c@), current_mask, e))),
{
    let ghost unit = unit_cands@.map_values(|c: [bool; 10]| c@);
    let mut masks = [0u16; 9];
    let mut k: usize = 0;
    while k < 9
        invariant
            k <= 9,
            unit == unit_cands@.map_values(|c: [bool; 10]| c@),
            forall|j: int| 0 <= j < k ==> mask_of(unit[j], #[trigger] masks@[j]),
        decreases 9 - k,
    {
        masks[k] = mask_from_candidates(unit_cands[k]);
        k = k + 1;
    }
    let mut new_mask = current_mask;
    let mut k: usize = 0;
    while k < 9
        invariant
            k <= 9,
            unit == unit_cands@.map_values(|c: [bool; 10]| c@),
            forall|j: int| 0 <= j < 9 ==> mask_of(unit[j], #[trigger] masks@[j]),
            forall|e: u16| e < 16 ==> (#[trigger] has_bit(new_mask, e) <==> (has_bit(current_mask, e)
                && !exists|j: int| 0 <= j < k && pair_mask(unit, #[trigger] masks@[j]) && !subset_mask(current_mask, masks@[j]) && has_bit(masks@[j], e))),
        decreases 9 - k,
    {
        let pm = masks[k];
        let mut cnt: usize = 0;
        let mut j: usize = 0;
        while j < 9
            invariant
                j <= 9,
                k < 9,
                pm == masks@[k as int],
                forall|q: int| 0 <= q < 9 ==> mask_of(unit[q], #[trigger] masks@[q]),
                cnt == count_with_mask(unit, pm, j as int),
                cnt <= j,
            decreases 9 - j,
        {
            proof {
                if mask_of(unit[j as int], pm) {
                    assert forall|e: u16| e < 16 implies #[trigger] has_bit(masks@[j as int], e) == has_bit(pm, e) by {}
                    lemma_mask_ext(masks@[j as int], pm);
                } else if masks@[j as int] == pm {
                    assert(mask_of(unit[j as int], pm));
                }
            }
            if masks[j] == pm {
                cnt = cnt + 1;
            }
            j = j + 1;
        }
        let two = crate::strategies::two_digits(pm);
        let is_pair = two.is_some() && cnt == 2;
        proof {
            if two.is_some() {
                let (x, y) = two->Some_0;
                assert(exact_two(pm, x as u16, y as u16));
                assert(two_bits(pm));
            }
        }
        let outside = current_mask & !pm;
        proof {
            lemma_outside_zero(current_mask, pm);
        }
        if is_pair && outside != 0 {
            proof {
                assert forall|e: u16| e < 16 implies (#[trigger] has_bit(new_mask & !pm, e) <==> (has_bit(current_mask, e)
                    && !exists|q: int| 0 <= q < k + 1 && pair_mask(unit, #[trigger] masks@[q]) && !subset_mask(current_mask, masks@[q]) && has_bit(masks@[q], e))) by {
                    lemma_and_not(new_mask, pm, e);
                    if has_bit(pm, e) {
                        assert(0 <= k < k + 1 && pair_mask(unit, masks@[k as int]) && !subset_mask(current_mask, masks@[k as int]) && has_bit(masks@[k as int], e));
                    }
                }
            }
            new_mask = new_mask & !pm;
        }
        k = k + 1;
    }
    proof {
        assert forall|e: u16| e < 16 implies (#[trigger] has_bit(new_mask, e) <==> (has_bit(current_mask, e)
            && !removed_by_pairs(unit, current_mask, e))) by {
            if removed_by_pairs(unit, current_mask, e) {
                let pm = choose|pm: u16| #[trigger] pair_mask(unit, pm) && !subset_mask(current_mask, pm) && has_bit(pm, e);
                lemma_count_positive(unit, pm, 9);
                let j = choose|j: int| 0 <= j < 9 && #[trigger] mask_of(unit[j], pm);
                assert forall|f: u16| f < 16 implies #[trigger] has_bit(masks@[j], f) == has_bit(pm, f) by {}
                lemma_mask_ext(masks@[j], pm);
            }
        }
    }
    new_mask
}


/// The result of removing the naked pairs of a unit from `cur`.
pub open spec fn pairs_step(unit: Seq<Seq<bool>>, cur: u16) -> u16 {
    choose|r: u16| #[trigger] is_pairs_step(unit, cur, r)
}

/// `r` is `cur` without the digits of the unit's naked pairs.
pub open spec fn is_pairs_step(unit: Seq<Seq<bool>>, cur: u16, r: u16) -> bool {
    forall|e: u16| e < 16 ==> (#[trigger] has_bit(r, e) <==> (has_bit(cur, e) && !removed_by_pairs(unit, cur, e)))
}

proof fn lemma_pairs_step(unit: Seq<Seq<bool>>, cur: u16, r: u16)
    requires
        forall|e: u16| e < 16 ==> (#[trigger] has_bit(r, e) <==> (has_bit(cur, e) && !removed_by_pairs(unit, cur, e))),
    ensures
        r == pairs_step(unit, cur),
{
    assert(is_pairs_step(unit, cur, r));
    let q = pairs_step(unit, cur);
    assert forall|e: u16| e < 16 implies #[trigger] has_bit(q, e) == has_bit(r, e) by {}
    lemma_mask_ext(q, r);
}

/// The candidate arrays of the nine cells of unit `u`.
pub open spec fn cands_seq(vals: Seq<u8>, u: int) -> Seq<Seq<bool>> {
    Seq::new(9, |k: int| Seq::new(10, |v: int| Board::cand_spec(vals, unit_cell(u, k), v)))
}

/// The candidate arrays of the cells of unit `u`.
fn unit_candidates(b: &Board, u: usize) -> (out: [[bool; 10]; 9])
    requires
        b.wf(),
        u < 27,
    ensures
        out@.map_values(|c: [bool; 10]| c@) == cands_seq(b.vals(), u as int),
{
    let mut out = [[false; 10]; 9];
    let mut k: usize = 0;
    while k < 9
        invariant
            k <= 9,
            u < 27,
            b.wf(),
            forall|j: int| 0 <= j < k ==> (#[trigger] out@[j])@ == cands_seq(b.vals(), u as int)[j],
        decreases 9 - k,
    {
        let j = unit_cell_idx(u, k);
        assert((j / 9) * 9 + j % 9 == j);
        let cand = b.candidates(j / 9, j % 9);
        out[k] = cand;
        assert(cand@ =~= cands_seq(b.vals(), u as int)[k as int]);
        k = k + 1;
    }
    assert(out@.map_values(|c: [bool; 10]| c@) =~= cands_seq(b.vals(), u as int));
    out
}

/// Candidate arrays of row `r`.
pub fn unit_candidates_row(b: &Board, r: usize) -> (out: [[bool; 10]; 9])
    requires
        b.wf(),
        r < 9,
    ensures
        out@.map_values(|c: [bool; 10]| c@) == cands_seq(b.vals(), r as int),
{
    unit_candidates(b, r)
}

/// Candidate arrays of column `c`.
pub fn unit_candidates_col(b: &Board, c: usize) -> (out: [[bool; 10]; 9])
    requires
        b.wf(),
        c < 9,
    ensures
        out@.map_values(|cs: [bool; 10]| cs@) == cands_seq(b.vals(), 9 + c),
{
    unit_candidates(b, 9 + c)
}

/// Candidate arrays of box (`br`, `bc`).
pub fn unit_candidates_box(b: &Board, br: usize, bc: usize) -> (out: [[bool; 10]; 9])
    requires
        b.wf(),
        br < 3,
        bc < 3,
    ensures
        out@.map_values(|cs: [bool; 10]| cs@) == cands_seq(b.vals(), 18 + br * 3 + bc),
{
    unit_candidates(b, 18 + br * 3 + bc)
}

/// Removes the naked pairs of the row, then the column, then the box of
/// cell (`r`, `c`) from `mask`.
pub fn apply_naked_pairs_all_units(b: &Board, r: usize, c: usize, mask: u16) -> (m: u16)
    requires
        b.wf(),
        r < 9,
        c < 9,
    ensures
        m == pairs_step(
            cands_seq(b.vals(), 18 + (r / 3) * 3 + c / 3),
            pairs_step(cands_seq(b.vals(), 9 + c), pairs_step(cands_seq(b.vals(), r as int), mask)),
        ),
        exists|m1: u16, m2: u16|
            #[trigger] is_pairs_step(cands_seq(b.vals(), r as int), mask, m1) && #[trigger] is_pairs_step(cands_seq(b.vals(), 9 + c), m1, m2)
                && is_pairs_step(cands_seq(b.vals(), 18 + (r / 3) * 3 + c / 3), m2, m),
{
    let m1 = reduce_by_naked_pairs_unit(mask, unit_candidates_row(b, r));
    proof {
        lemma_pairs_step(cands_seq(b.vals(), r as int), mask, m1);
    }
    let m2 = reduce_by_naked_pairs_unit(m1, unit_candidates_col(b, c));
    proof {
        lemma_pairs_step(cands_seq(b.vals(), 9 + c), m1, m2);
    }
    let m3 = reduce_by_naked_pairs_unit(m2, unit_candidates_box(b, r / 3, c / 3));
    proof {
        lemma_pairs_step(cands_seq(b.vals(), 18 + (r / 3) * 3 + c / 3), m2, m3);
        assert(is_pairs_step(cands_seq(b.vals(), r as int), mask, m1));
        assert(is_pairs_step(cands_seq(b.vals(), 9 + c), m1, m2));
        assert(is_pairs_step(cands_seq(b.vals(), 18 + (r / 3) * 3 + c / 3), m2, m3));
    }
    m3
}

/// The `k`-th cell of unit `u` is empty and allows `d`.
pub open spec fn bcand(vals: Seq<u8>, u: int, k: int, d: int) -> bool {
    vals[unit_cell(u, k)] == 0 && allowed(vals, unit_cell(u, k), d)
}

/// `d` is allowed somewhere in unit `u`, and only inside unit `w`.
pub open spec fn confined_in(vals: Seq<u8>, u: int, d: int, w: int) -> bool {
    &&& exists|k: int| 0 <= k < 9 && #[trigger] bcand(vals, u, k, d)
    &&& forall|k: int| 0 <= k < 9 && #[trigger] bcand(vals, u, k, d) ==> in_unit(w, unit_cell(u, k))
}

/// Locked candidates exclude `d` from cell `i`: for a box whose cells
/// allowing `d` all lie on a line through `i` outside the box (pointing), or
/// a line whose cells allowing `d` all lie in the box of `i`, off the line
/// (claiming).
pub open spec fn locked_out(vals: Seq<u8>, i: int, d: int) -> bool {
    exists|u: int, w: int|
        0 <= u < 27 && 0 <= w < 27 && in_unit(w, i) && !in_unit(u, i) && ((u >= 18) != (w >= 18))
            && #[trigger] confined_in(vals, u, d, w)
}

/// Whether `d` is allowed in unit `u`, and only inside unit `w`.
fn confined_b(b: &Board, u: usize, d: u8, w: usize) -> (r: bool)
    requires
        b.wf(),
        u < 27,
        w < 27,
        1 <= d <= 9,
    ensures
        r == confined_in(b.vals(), u as int, d as int, w as int),
{
    let mut any = false;
    let mut k: usize = 0;
    while k < 9
        invariant
            k <= 9,
            u < 27,
            w < 27,
            1 <= d <= 9,
            any <==> exists|j: int| 0 <= j < k && #[trigger] bcand(b.vals(), u as int, j, d as int),
            forall|j: int| 0 <= j < k && #[trigger] bcand(b.vals(), u as int, j, d as int) ==> in_unit(w as int, unit_cell(u as int, j)),
        decreases 9 - k,
    {
        let i = unit_cell_idx(u, k);
        if b.at(i) == 0 && b.digit_allowed(i, d) {
            if !cell_in_unit(w, i) {
                assert(bcand(b.vals(), u as int, k as int, d as int));
                return false;
            }
            any = true;
            assert(bcand(b.vals(), u as int, k as int, d as int));
        }
        k = k + 1;
    }
    any
}

/// Removes from `mask` every digit that locked candidates exclude from the
/// cell at (`r`, `c`).
pub fn apply_locked_pointing_claiming(b: &Board, r: usize, c: usize, mask: u16) -> (m: u16)
    requires
        b.wf(),
        r < 9,
        c < 9,
    ensures
        forall|e: u16| e < 16 ==> (#[trigger] has_bit(m, e) <==> (has_bit(mask, e) && !(1 <= e <= 9 && locked_out(b.vals(), r * 9 + c, e as int)))),
{
    let i = r * 9 + c;
    let rw = row_unit(i);
    let cw = col_unit(i);
    let bw = box_unit(i);
    let mut m = mask;
    let mut v: u16 = 1;
    while v <= 9
        invariant
            1 <= v <= 10,
            i == r * 9 + c,
            i < 81,
            b.wf(),
            rw < 9 && in_unit(rw as int, i as int),
            9 <= cw < 18 && in_unit(cw as int, i as int),
            18 <= bw < 27 && in_unit(bw as int, i as int),
            forall|e: u16| e < 16 ==> (#[trigger] has_bit(m, e) <==> (has_bit(mask, e) && !(1 <= e < v && locked_out(b.vals(), i as int, e as int)))),
        decreases 10 - v,
    {
        if test_bit(m, v) {
            let mut hit = false;
            let mut u: usize = 0;
            while u < 27
                invariant
                    u <= 27,
                    1 <= v <= 9,
                    i < 81,
                    b.wf(),
                    rw < 9 && in_unit(rw as int, i as int),
                    9 <= cw < 18 && in_unit(cw as int, i as int),
                    18 <= bw < 27 && in_unit(bw as int, i as int),
                    hit <==> exists|u2: int, w: int|
                        0 <= u2 < u && 0 <= w < 27 && in_unit(w, i as int) && !in_unit(u2, i as int) && ((u2 >= 18) != (w >= 18))
                            && #[trigger] confined_in(b.vals(), u2, v as int, w),
                decreases 27 - u,
            {
                if !cell_in_unit(u, i) {
                    if u >= 18 {
                        if confined_b(b, u, v as u8, rw) || confined_b(b, u, v as u8, cw) {
                            hit = true;
                        }
                    } else {
                        if confined_b(b, u, v as u8, bw) {
                            hit = true;
                        }
                    }
                }
                proof {
                    assert forall|w: int| 0 <= w < 27 && in_unit(w, i as int) implies w == rw || w == cw || w == bw by {}
                    if hit {
                        if !(exists|u2: int, w: int|
                            0 <= u2 < u && 0 <= w < 27 && in_unit(w, i as int) && !in_unit(u2, i as int) && ((u2 >= 18) != (w >= 18))
                                && #[trigger] confined_in(b.vals(), u2, v as int, w)) {
                            if u >= 18 {
                                if confined_in(b.vals(), u as int, v as int, rw as int) {
                                    assert(confined_in(b.vals(), u as int, v as int, rw as int));
                                } else {
                                    assert(confined_in(b.vals(), u as int, v as int, cw as int));
                                }
                            } else {
                                assert(confined_in(b.vals(), u as int, v as int, bw as int));
                            }
                        }
                    }
                }
                u = u + 1;
            }
            if hit {
                proof {
                    assert forall|e: u16| e < 16 implies (#[trigger] has_bit(without(m, v), e) <==> (has_bit(mask, e) && !(1 <= e < v + 1 && locked_out(b.vals(), i as int, e as int)))) by {
                        crate::bits::lemma_without(m, v, e);
                    }
                }
                m = clear_bit(m, v);
            }
        } else {
            proof {
                assert forall|e: u16| e < 16 implies (#[trigger] has_bit(m, e) <==> (has_bit(mask, e) && !(1 <= e < v + 1 && locked_out(b.vals(), i as int, e as int)))) by {
                    if e == v && has_bit(mask, e) {
                        assert(locked_out(b.vals(), i as int, e as int));
                    }
                }
            }
        }
        v = v + 1;
    }
    m
}


/// Every solution of the puzzle puts in cell `i` a digit of `m`.
pub open spec fn keeps_solutions(vals: Seq<u8>, i: int, m: u16) -> bool {
    forall|sol: Seq<u8>| #[trigger] is_completion(sol, vals) ==> has_bit(m, sol[i] as u16)
}

/// The candidate array of cell `i`.
pub open spec fn cell_cands(vals: Seq<u8>, i: int) -> Seq<bool> {
    Seq::new(10, |v: int| Board::cand_spec(vals, i, v))
}

/// A digit that locked candidates exclude is in no solution at that cell.
pub proof fn lemma_locked_sound(vals: Seq<u8>, i: int, d: int, sol: Seq<u8>)
    requires
        vals.len() == 81,
        0 <= i < 81,
        1 <= d <= 9,
        locked_out(vals, i, d),
        is_completion(sol, vals),
    ensures
        sol[i] != d,
{
    let (u, w) = choose|u: int, w: int|
        0 <= u < 27 && 0 <= w < 27 && in_unit(w, i) && !in_unit(u, i) && ((u >= 18) != (w >= 18))
            && #[trigger] confined_in(vals, u, d, w);
    let k0 = choose|k: int| 0 <= k < 9 && #[trigger] bcand(vals, u, k, d);
    let k = lemma_unit_has_digit(sol, u, d);
    lemma_unit_cell(u, k);
    lemma_unit_cell(u, k0);
    let c = unit_cell(u, k);
    let p = unit_cell(u, k0);
    if vals[c] != 0 {
        assert(sol[c] == vals[c]);
        assert(p != c);
        assert(peer(p, c));
        assert(false);
    }
    lemma_completion_allowed(sol, vals, c);
    assert(bcand(vals, u, k, d));
    assert(in_unit(w, c));
    assert(c != i);
    assert(peer(i, c));
}

proof fn lemma_count_two(unit: Seq<Seq<bool>>, pm: u16, n: int) -> (ks: (int, int))
    requires
        0 <= n,
        count_with_mask(unit, pm, n) == 2,
    ensures
        0 <= ks.0 < ks.1 < n,
        mask_of(unit[ks.0], pm),
        mask_of(unit[ks.1], pm),
        forall|k: int| 0 <= k < n && #[trigger] mask_of(unit[k], pm) ==> k == ks.0 || k == ks.1,
    decreases n,
{
    if mask_of(unit[n - 1], pm) {
        assert(count_with_mask(unit, pm, n - 1) == 1);
        let k1 = lemma_count_one(unit, pm, n - 1);
        (k1, n - 1)
    } else {
        lemma_count_two(unit, pm, n - 1)
    }
}

proof fn lemma_count_one(unit: Seq<Seq<bool>>, pm: u16, n: int) -> (k1: int)
    requires
        0 <= n,
        count_with_mask(unit, pm, n) == 1,
    ensures
        0 <= k1 < n,
        mask_of(unit[k1], pm),
        forall|k: int| 0 <= k < n && #[trigger] mask_of(unit[k], pm) ==> k == k1,
    decreases n,
{
    if mask_of(unit[n - 1], pm) {
        lemma_count_zero(unit, pm, n - 1);
        n - 1
    } else {
        lemma_count_one(unit, pm, n - 1)
    }
}

proof fn lemma_count_zero(unit: Seq<Seq<bool>>, pm: u16, n: int)
    requires
        0 <= n,
        count_with_mask(unit, pm, n) == 0,
    ensures
        forall|k: int| 0 <= k < n ==> !#[trigger] mask_of(unit[k], pm),
    decreases n,
{
    if n > 0 {
        lemma_count_zero(unit, pm, n - 1);
    }
}

/// Removing the naked pairs of a unit through cell `i` keeps every solution
/// digit of the cell, or empties the mask.
pub proof fn lemma_pairs_sound(vals: Seq<u8>, u: int, i: int, base: u16, m: u16, r: u16)
    requires
        vals.len() == 81,
        forall|j: int| 0 <= j < 81 ==> #[trigger] vals[j] <= 9,
        0 <= u < 27,
        in_unit(u, i),
        vals[i] == 0,
        mask_of(cell_cands(vals, i), base),
        subset_mask(m, base),
        keeps_solutions(vals, i, m),
        is_pairs_step(cands_seq(vals, u), m, r),
    ensures
        subset_mask(r, m),
        keeps_solutions(vals, i, r),
{
    let unit = cands_seq(vals, u);
    assert forall|sol: Seq<u8>| #[trigger] is_completion(sol, vals) implies has_bit(r, sol[i] as u16) by {
        let s = sol[i] as u16;
        assert(has_bit(m, s));
        if !has_bit(r, s) {
            let pm = choose|pm: u16| #[trigger] pair_mask(unit, pm) && !subset_mask(m, pm) && has_bit(pm, s);
            let (k1, k2) = lemma_count_two(unit, pm, 9);
            let ki = lemma_unit_pos(u, i);
            let (x, y) = choose|x: u16, y: u16| x < y < 16 && #[trigger] exact_two(pm, x, y);
            if ki == k1 || ki == k2 {
                assert(unit[ki] == cell_cands(vals, i));
                assert forall|e: u16| e < 16 implies #[trigger] has_bit(pm, e) == has_bit(base, e) by {}
                lemma_mask_ext(pm, base);
            } else {
                lemma_unit_cell(u, k1);
                lemma_unit_cell(u, k2);
                lemma_unit_cell(u, ki);
                let c1 = unit_cell(u, k1);
                let c2 = unit_cell(u, k2);
                assert(has_bit(pm, x) && has_bit(pm, y));
                assert(unit[k1][x as int] == Board::cand_spec(vals, c1, x as int));
                assert(unit[k2][x as int] == Board::cand_spec(vals, c2, x as int));
                lemma_completion_allowed(sol, vals, c1);
                lemma_completion_allowed(sol, vals, c2);
                assert(unit[k1][sol[c1] as int] == Board::cand_spec(vals, c1, sol[c1] as int));
                assert(unit[k2][sol[c2] as int] == Board::cand_spec(vals, c2, sol[c2] as int));
                assert(has_bit(pm, sol[c1] as u16));
                assert(has_bit(pm, sol[c2] as u16));
                assert(peer(c1, c2));
                assert(peer(i, c1));
                assert(peer(i, c2));
                assert(sol[i] != 0);
            }
        }
    }
}

/// `m` has exactly one bit set.
pub open spec fn single_bit_mask(m: u16) -> bool {
    exists|d: u16| d < 16 && #[trigger] exact_one(m, d)
}

/// The single digit of a mask with exactly one bit set.
fn single_bit(m: u16) -> (r: Option<u16>)
    ensures
        r matches Some(v) ==> v < 16 && exact_one(m, v),
        r is None <==> !single_bit_mask(m),
{
    match first_bit(m) {
        None => {
            proof {
                if single_bit_mask(m) {
                    let d = choose|d: u16| d < 16 && #[trigger] exact_one(m, d);
                    assert(has_bit(m, d));
                    lemma_zero_mask(d);
                }
            }
            None
        },
        Some(t) => {
            let rest = clear_bit(m, t as u16);
            if rest == 0 {
                proof {
                    assert forall|e: u16| e < 16 implies (#[trigger] has_bit(m, e) <==> e == t as u16) by {
                        lemma_zero_mask(e);
                    }
                    assert(exact_one(m, t as u16));
                }
                Some(t as u16)
            } else {
                proof {
                    if forall|e: u16| e < 16 ==> !#[trigger] has_bit(rest, e) {
                        crate::bits::lemma_no_bits_zero(rest);
                    }
                    let z = choose|e: u16| e < 16 && #[trigger] has_bit(rest, e);
                    assert(has_bit(m, z) && has_bit(m, t as u16) && z != t);
                    if single_bit_mask(m) {
                        let d = choose|d: u16| d < 16 && #[trigger] exact_one(m, d);
                        assert(has_bit(m, z) && has_bit(m, t as u16));
                    }
                }
                None
            }
        },
    }
}

/// `r` is `m` without the digits that locked candidates exclude from cell `i`.
pub open spec fn is_locked_step(vals: Seq<u8>, i: int, m: u16, r: u16) -> bool {
    forall|e: u16| e < 16 ==> (#[trigger] has_bit(r, e) <==> (has_bit(m, e) && !(1 <= e <= 9 && locked_out(vals, i, e as int))))
}

/// `m` without the digits that locked candidates exclude from cell `i`.
pub open spec fn locked_step(vals: Seq<u8>, i: int, m: u16) -> u16 {
    choose|r: u16| #[trigger] is_locked_step(vals, i, m, r)
}

proof fn lemma_locked_step(vals: Seq<u8>, i: int, m: u16, r: u16)
    requires
        is_locked_step(vals, i, m, r),
    ensures
        r == locked_step(vals, i, m),
{
    let q = locked_step(vals, i, m);
    assert forall|e: u16| e < 16 implies #[trigger] has_bit(q, e) == has_bit(r, e) by {}
    lemma_mask_ext(q, r);
}

/// One round of reductions on the mask of cell `i`: locked candidates, then
/// the naked pairs of its row, column and box.
pub open spec fn reduction_round(vals: Seq<u8>, i: int, m: u16) -> u16 {
    let r = i / 9;
    let c = i % 9;
    pairs_step(
        cands_seq(vals, 18 + (r / 3) * 3 + c / 3),
        pairs_step(cands_seq(vals, 9 + c), pairs_step(cands_seq(vals, r), locked_step(vals, i, m))),
    )
}

/// Rounds of reductions from `m` until a round changes nothing or leaves a
/// single digit.
pub open spec fn reduce_from(vals: Seq<u8>, i: int, m: u16) -> u16
    decreases popcount(m),
{
    let m2 = reduction_round(vals, i, m);
    if m2 != m && popcount(m2) < popcount(m) && !single_bit_mask(m2) {
        reduce_from(vals, i, m2)
    } else {
        m2
    }
}

/// The candidate mask of cell `i`.
pub open spec fn cell_mask(vals: Seq<u8>, i: int) -> u16 {
    choose|m: u16| #[trigger] mask_of(cell_cands(vals, i), m)
}

/// Empty cell `i` has at least two candidates, and repeated reductions
/// leave exactly one.
pub open spec fn reduces_to_single(vals: Seq<u8>, i: int) -> bool {
    let base = cell_mask(vals, i);
    &&& vals[i] == 0
    &&& base != 0
    &&& !single_bit_mask(base)
    &&& single_bit_mask(reduce_from(vals, i, base))
}

proof fn lemma_cell_mask(vals: Seq<u8>, i: int, base: u16)
    requires
        mask_of(cell_cands(vals, i), base),
    ensures
        cell_mask(vals, i) == base,
{
    let q = cell_mask(vals, i);
    assert forall|e: u16| e < 16 implies #[trigger] has_bit(q, e) == has_bit(base, e) by {}
    lemma_mask_ext(q, base);
}

/// Looks, cell by cell in row-major order, for the first empty cell with at
/// least two candidates that repeated locked-candidate and naked-pair
/// reductions shrink to a single digit; that digit is in every solution
/// there.
pub fn find_single_after_reductions(b: &Board) -> (p: Option<(usize, usize, u8, String)>)
    requires
        b.wf(),
    ensures
        crate::stepwise::sound_placement(*b, p),
        p matches Some((r, c, v, reason)) ==> reason@ == "Single after reductions (pointing/claiming, pairs)"@,
        p matches Some((r, c, v, _)) ==> reduces_to_single(b.vals(), r * 9 + c)
            && exact_one(reduce_from(b.vals(), r * 9 + c, cell_mask(b.vals(), r * 9 + c)), v as u16)
            && forall|j: int| 0 <= j < r * 9 + c ==> !#[trigger] reduces_to_single(b.vals(), j),
        p is None ==> forall|j: int| 0 <= j < 81 ==> !#[trigger] reduces_to_single(b.vals(), j),
{
    let mut r: usize = 0;
    while r < 9
        invariant
            r <= 9,
            b.wf(),
            forall|j: int| 0 <= j < r * 9 ==> !#[trigger] reduces_to_single(b.vals(), j),
        decreases 9 - r,
    {
        let mut c: usize = 0;
        while c < 9
            invariant
                c <= 9,
                r < 9,
                b.wf(),
                forall|j: int| 0 <= j < r * 9 + c ==> !#[trigger] reduces_to_single(b.vals(), j),
            decreases 9 - c,
        {
            let i = r * 9 + c;
            let ghost vals = b.vals();
            proof {
                assert(i / 9 == r && i % 9 == c);
            }
            if b.at(i) == 0 {
                let cand = b.candidates(r, c);
                let base = mask_from_candidates(cand);
                proof {
                    assert(cand@ =~= cell_cands(vals, i as int));
                    lemma_cell_mask(vals, i as int, base);
                    assert forall|sol: Seq<u8>| #[trigger] is_completion(sol, vals) implies has_bit(base, sol[i as int] as u16) by {
                        lemma_completion_allowed(sol, vals, i as int);
                    }
                }
                let mut mask = base;
                if mask != 0 && single_bit(mask).is_none() {
                    loop
                        invariant_except_break
                            reduce_from(vals, i as int, mask) == reduce_from(vals, i as int, base),
                            !single_bit_mask(mask),
                        invariant
                            i == r * 9 + c,
                            i < 81,
                            r < 9,
                            c < 9,
                            i / 9 == r && i % 9 == c,
                            b.wf(),
                            vals == b.vals(),
                            vals[i as int] == 0,
                            mask_of(cell_cands(vals, i as int), base),
                            subset_mask(mask, base),
                            keeps_solutions(vals, i as int, mask),
                        ensures
                            subset_mask(mask, base),
                            keeps_solutions(vals, i as int, mask),
                            mask == reduce_from(vals, i as int, base),
                        decreases popcount(mask),
                    {
                        let before = mask;
                        let m1 = apply_locked_pointing_claiming(b, r, c, mask);
                        proof {
                            lemma_locked_step(vals, i as int, before, m1);
                            assert forall|e: u16| e < 16 && #[trigger] has_bit(m1, e) implies has_bit(before, e) by {}
                            assert forall|sol: Seq<u8>| #[trigger] is_completion(sol, vals) implies has_bit(m1, sol[i as int] as u16) by {
                                let s = sol[i as int] as u16;
                                assert(has_bit(before, s));
                                if !has_bit(m1, s) {
                                    lemma_locked_sound(vals, i as int, s as int, sol);
                                }
                            }
                        }
                        let m2 = apply_naked_pairs_all_units(b, r, c, m1);
                        proof {
                            let (q1, q2) = choose|q1: u16, q2: u16|
                                #[trigger] is_pairs_step(cands_seq(vals, r as int), m1, q1) && #[trigger] is_pairs_step(cands_seq(vals, 9 + c), q1, q2)
                                    && is_pairs_step(cands_seq(vals, 18 + (r / 3) * 3 + c / 3), q2, m2);
                            assert(in_unit(r as int, i as int));
                            assert(in_unit(9 + c, i as int));
                            assert(in_unit(18 + (r / 3) * 3 + c / 3, i as int));
                            lemma_pairs_sound(vals, r as int, i as int, base, m1, q1);
                            lemma_pairs_sound(vals, 9 + c, i as int, base, q1, q2);
                            lemma_pairs_sound(vals, 18 + (r / 3) * 3 + c / 3, i as int, base, q2, m2);
                            assert(m2 == reduction_round(vals, i as int, before));
                        }
                        mask = m2;
                        if mask == before {
                            proof {
                                assert(reduce_from(vals, i as int, before) == m2);
                            }
                            break;
                        }
                        proof {
                            if forall|e: u16| e < 16 ==> #[trigger] has_bit(mask, e) == has_bit(before, e) {
                                lemma_mask_ext(mask, before);
                            }
                            let e = choose|e: u16| e < 16 && #[trigger] has_bit(mask, e) != has_bit(before, e);
                            lemma_subset_popcount_strict(mask, before, e);
                        }
                        if single_bit(mask).is_some() {
                            proof {
                                assert(reduce_from(vals, i as int, before) == m2);
                            }
                            break;
                        }
                        proof {
                            assert(reduce_from(vals, i as int, before) == reduce_from(vals, i as int, m2));
                        }
                    }
                    if let Some(v) = single_bit(mask) {
                        proof {
                            lemma_zero_mask(v);
                            assert(has_bit(mask, v));
                            assert(1 <= v <= 9 && cand@[v as int]);
                            assert forall|sol: Seq<u8>| #[trigger] is_completion(sol, vals) implies sol[i as int] == v as u8 by {
                                let s = sol[i as int] as u16;
                                assert(has_bit(mask, s));
                            }
                            assert(reduces_to_single(vals, i as int));
                        }
                        return Some((r, c, v as u8, crate::stepwise::owned("Single after reductions (pointing/claiming, pairs)")));
                    }
                }
            }
            c = c + 1;
        }
        r = r + 1;
    }
    None
}

} // verus!

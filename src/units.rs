//! The 27 units of the board (9 rows, 9 columns, 9 boxes) and the facts
//! about them that deductions rest on.
use vstd::prelude::*;
use vstd::set_lib::{lemma_int_range, lemma_subset_equality, set_int_range};
use crate::grid::{box_of, col_of, is_solution, peer, row_of};

verus! {

/// Cell `i` belongs to unit `u`: rows are units 0..9, columns 9..18 and
/// boxes 18..27.
pub open spec fn in_unit(u: int, i: int) -> bool {
    &&& 0 <= i < 81
    &&& if u < 9 {
        row_of(i) == u
    } else if u < 18 {
        col_of(i) == u - 9
    } else {
        box_of(i) == u - 18
    }
}

/// The `k`-th cell of unit `u`, in row-major order.
pub open spec fn unit_cell(u: int, k: int) -> int {
    if u < 9 {
        u * 9 + k
    } else if u < 18 {
        k * 9 + (u - 9)
    } else {
        (((u - 18) / 3) * 3 + k / 3) * 9 + ((u - 18) % 3) * 3 + k % 3
    }
}

/// Unit `u`'s `k`-th cell lies in it, and distinct positions give distinct cells.
pub proof fn lemma_unit_cell(u: int, k: int)
    requires
        0 <= u < 27,
        0 <= k < 9,
    ensures
        in_unit(u, unit_cell(u, k)),
        forall|k2: int| 0 <= k2 < 9 && k2 != k ==> #[trigger] unit_cell(u, k2) != unit_cell(u, k),
{
    if u >= 18 {
        let b = u - 18;
        assert(0 <= b / 3 < 3 && 0 <= b % 3 < 3 && b == (b / 3) * 3 + b % 3);
        assert(0 <= k / 3 < 3 && 0 <= k % 3 < 3 && k == (k / 3) * 3 + k % 3);
        let i = unit_cell(u, k);
        assert(row_of(i) == (b / 3) * 3 + k / 3);
        assert(col_of(i) == (b % 3) * 3 + k % 3);
        assert(box_of(i) == b);
        assert forall|k2: int| 0 <= k2 < 9 && k2 != k implies #[trigger] unit_cell(u, k2) != unit_cell(u, k) by {
            assert(k2 == (k2 / 3) * 3 + k2 % 3);
            let j = unit_cell(u, k2);
            assert(row_of(j) == (b / 3) * 3 + k2 / 3);
            assert(col_of(j) == (b % 3) * 3 + k2 % 3);
        }
    }
}

/// A solution holds every digit somewhere in every unit.
pub proof fn lemma_unit_has_digit(sol: Seq<u8>, u: int, d: int) -> (k: int)
    requires
        is_solution(sol),
        0 <= u < 27,
        1 <= d <= 9,
    ensures
        0 <= k < 9,
        sol[unit_cell(u, k)] == d,
{
    let vals = Seq::new(9, |k: int| sol[unit_cell(u, k)] as int);
    assert forall|a: int, b: int| 0 <= a < vals.len() && 0 <= b < vals.len() && a != b implies vals[a]
        != vals[b] by {
        lemma_unit_cell(u, a);
        lemma_unit_cell(u, b);
        assert(unit_cell(u, a) != unit_cell(u, b));
        assert(peer(unit_cell(u, a), unit_cell(u, b)));
        assert(sol[unit_cell(u, a)] != 0);
    }
    assert(vals.no_duplicates());
    vals.unique_seq_to_set();
    lemma_int_range(1, 10);
    assert forall|v: int| vals.to_set().contains(v) implies set_int_range(1, 10).contains(v) by {
        let k = choose|k: int| 0 <= k < vals.len() && vals[k] == v;
        lemma_unit_cell(u, k);
    }
    assert(vals.to_set().subset_of(set_int_range(1, 10)));
    lemma_subset_equality(vals.to_set(), set_int_range(1, 10));
    assert(set_int_range(1, 10).contains(d));
    assert(vals.to_set().contains(d));
    let k = choose|k: int| 0 <= k < vals.len() && vals[k] == d;
    k
}

/// Row-major index of unit `u`'s `k`-th cell.
pub fn unit_cell_idx(u: usize, k: usize) -> (i: usize)
    requires
        u < 27,
        k < 9,
    ensures
        i == unit_cell(u as int, k as int),
        i < 81,
        in_unit(u as int, i as int),
{
    proof {
        lemma_unit_cell(u as int, k as int);
    }
    if u < 9 {
        u * 9 + k
    } else if u < 18 {
        k * 9 + (u - 9)
    } else {
        (((u - 18) / 3) * 3 + k / 3) * 9 + ((u - 18) % 3) * 3 + k % 3
    }
}

/// Whether cell `i` belongs to unit `u`.
pub fn cell_in_unit(u: usize, i: usize) -> (r: bool)
    requires
        u < 27,
        i < 81,
    ensures
        r == in_unit(u as int, i as int),
{
    if u < 9 {
        i / 9 == u
    } else if u < 18 {
        i % 9 == u - 9
    } else {
        (i / 27) * 3 + (i % 9) / 3 == u - 18
    }
}

/// The row unit of cell `i`.
pub fn row_unit(i: usize) -> (u: usize)
    requires
        i < 81,
    ensures
        u < 9,
        in_unit(u as int, i as int),
{
    i / 9
}

/// The column unit of cell `i`.
pub fn col_unit(i: usize) -> (u: usize)
    requires
        i < 81,
    ensures
        9 <= u < 18,
        in_unit(u as int, i as int),
{
    9 + i % 9
}

/// The box unit of cell `i`.
pub fn box_unit(i: usize) -> (u: usize)
    requires
        i < 81,
    ensures
        18 <= u < 27,
        in_unit(u as int, i as int),
{
    18 + (i / 27) * 3 + (i % 9) / 3
}


/// Every cell of a unit is one of its nine cells.
pub proof fn lemma_unit_pos(u: int, i: int) -> (k: int)
    requires
        0 <= u < 27,
        in_unit(u, i),
    ensures
        0 <= k < 9,
        unit_cell(u, k) == i,
{
    if u < 9 {
        i % 9
    } else if u < 18 {
        i / 9
    } else {
        let k = ((i / 9) % 3) * 3 + (i % 9) % 3;
        let b = u - 18;
        assert(b == (i / 27) * 3 + (i % 9) / 3);
        assert(b / 3 == i / 27);
        assert(b % 3 == (i % 9) / 3);
        assert(k / 3 == (i / 9) % 3);
        assert(k % 3 == (i % 9) % 3);
        assert((i / 27) * 3 + (i / 9) % 3 == i / 9);
        assert(((i % 9) / 3) * 3 + (i % 9) % 3 == i % 9);
        k
    }
}

/// The nine digits of unit `u`.
pub open spec fn unit_seq(vals: Seq<u8>, u: int) -> Seq<u8> {
    Seq::new(9, |k: int| vals[unit_cell(u, k)])
}

/// No nonzero digit repeats in `s`.
pub open spec fn dupfree(s: Seq<u8>) -> bool {
    forall|a: int, b: int| 0 <= a < s.len() && 0 <= b < s.len() && a != b && s[a] != 0 ==> #[trigger] s[a] != #[trigger] s[b]
}

/// Peers share a unit.
pub proof fn lemma_peer_unit(i: int, j: int) -> (u: int)
    requires
        peer(i, j),
    ensures
        0 <= u < 27,
        in_unit(u, i),
        in_unit(u, j),
{
    if row_of(i) == row_of(j) {
        row_of(i)
    } else if col_of(i) == col_of(j) {
        9 + col_of(i)
    } else {
        18 + box_of(i)
    }
}

/// No two peers share a digit exactly when no unit repeats one.
pub proof fn lemma_no_conflict_units(vals: Seq<u8>)
    requires
        vals.len() == 81,
    ensures
        crate::grid::no_conflict(vals) <==> forall|u: int| 0 <= u < 27 ==> dupfree(#[trigger] unit_seq(vals, u)),
{
    if crate::grid::no_conflict(vals) {
        assert forall|u: int| 0 <= u < 27 implies dupfree(#[trigger] unit_seq(vals, u)) by {
            assert forall|a: int, b: int| 0 <= a < 9 && 0 <= b < 9 && a != b && unit_seq(vals, u)[a] != 0 implies #[trigger] unit_seq(vals, u)[a] != #[trigger] unit_seq(vals, u)[b] by {
                lemma_unit_cell(u, a);
                lemma_unit_cell(u, b);
                assert(peer(unit_cell(u, a), unit_cell(u, b)));
            }
        }
    }
    if forall|u: int| 0 <= u < 27 ==> dupfree(#[trigger] unit_seq(vals, u)) {
        assert forall|i: int, j: int| #[trigger] peer(i, j) && vals[i] != 0 implies vals[i] != vals[j] by {
            let u = lemma_peer_unit(i, j);
            let a = lemma_unit_pos(u, i);
            let b = lemma_unit_pos(u, j);
            assert(dupfree(unit_seq(vals, u)));
            assert(unit_seq(vals, u)[a] != unit_seq(vals, u)[b]);
        }
    }
}

} // verus!

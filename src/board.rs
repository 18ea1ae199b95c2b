//! The plain 9x9 board: a digit and a "given" flag per cell, with candidates
//! derived from the digits on demand.
use vstd::prelude::*;
use vstd::string::*;
use crate::error::SudokuError;
use crate::grid::{all_filled, allowed, char_digit, no_conflict, peer};
use crate::units::{
    in_unit, dupfree, lemma_no_conflict_units, lemma_unit_cell, unit_cell, unit_cell_idx, unit_seq,
};

verus! {

/// One cell: its digit (0 when empty) and whether the puzzle gave it.
#[derive(Clone, Copy, Debug, PartialEq, Eq, Structural)]
pub struct Cell {
    pub value: u8,
    pub fixed: bool,
}

impl Default for Cell {
    fn default() -> (c: Cell)
        ensures
            c.value == 0,
            !c.fixed,
    {
        Cell { value: 0, fixed: false }
    }
}

/// The digits that the non-blank characters of `s` stand for, in order;
/// unrecognised characters are skipped.
pub open spec fn digits_of(s: Seq<char>) -> Seq<u8>
    decreases s.len(),
{
    if s.len() == 0 {
        Seq::empty()
    } else {
        let rest = digits_of(s.drop_last());
        match char_digit(s.last()) {
            Some(d) => rest.push(d),
            None => rest,
        }
    }
}

/// A 9x9 board of cells.
#[derive(Clone, Copy, Debug)]
pub struct Board {
    pub cells: [[Cell; 9]; 9],
}

impl Board {
    /// The digits in row-major order.
    pub open spec fn vals(&self) -> Seq<u8> {
        Seq::new(81, |i: int| self.cells@[i / 9]@[i % 9].value)
    }

    /// The two boards mark the same cells as given.
    pub open spec fn same_givens(&self, other: Board) -> bool {
        forall|r: int, c: int| 0 <= r < 9 && 0 <= c < 9 ==> (#[trigger] self.cells@[r]@[c]).fixed == other.cells@[r]@[c].fixed
    }

    /// Every digit is in 0..=9.
    pub open spec fn wf(&self) -> bool {
        forall|i: int| 0 <= i < 81 ==> #[trigger] self.vals()[i] <= 9
    }

    /// No row, column or box repeats a digit.
    pub open spec fn valid(&self) -> bool {
        no_conflict(self.vals())
    }

    /// Every cell is filled and no unit repeats a digit.
    pub open spec fn complete(&self) -> bool {
        all_filled(self.vals()) && no_conflict(self.vals())
    }

    /// A board with every cell empty and not given.
    pub fn empty() -> (b: Board)
        ensures
            forall|r: int, c: int| 0 <= r < 9 && 0 <= c < 9 ==> #[trigger] b.cells@[r]@[c] == (Cell { value: 0, fixed: false }),
            forall|i: int| 0 <= i < 81 ==> #[trigger] b.vals()[i] == 0,
            b.wf(),
    {
        let c = Cell::default();
        let b = Board { cells: [[c; 9]; 9] };
        b
    }

    /// A board from its rows of digits; nonzero digits are marked given.
    pub fn from_rows(rows: [[u8; 9]; 9]) -> (b: Board)
        ensures
            forall|r: int, c: int| 0 <= r < 9 && 0 <= c < 9 ==> #[trigger] b.cells@[r]@[c] == (Cell {
                value: rows@[r]@[c],
                fixed: rows@[r]@[c] != 0,
            }),
    {
        let mut b = Board::empty();
        let mut r: usize = 0;
        while r < 9
            invariant
                r <= 9,
                forall|r2: int, c: int| 0 <= r2 < r && 0 <= c < 9 ==> #[trigger] b.cells@[r2]@[c] == (Cell {
                    value: rows@[r2]@[c],
                    fixed: rows@[r2]@[c] != 0,
                }),
            decreases 9 - r,
        {
            let mut c: usize = 0;
            while c < 9
                invariant
                    r < 9,
                    c <= 9,
                    forall|r2: int, c2: int| 0 <= r2 < r && 0 <= c2 < 9 ==> #[trigger] b.cells@[r2]@[c2] == (Cell {
                        value: rows@[r2]@[c2],
                        fixed: rows@[r2]@[c2] != 0,
                    }),
                    forall|c2: int| 0 <= c2 < c ==> #[trigger] b.cells@[r as int]@[c2] == (Cell {
                        value: rows@[r as int]@[c2],
                        fixed: rows@[r as int]@[c2] != 0,
                    }),
                decreases 9 - c,
            {
                let v = rows[r][c];
                b.cells[r][c] = Cell { value: v, fixed: v != 0 };
                c = c + 1;
            }
            r = r + 1;
        }
        b
    }

    /// Parses puzzle text leniently: '1'..='9' are clues, '0', '.' and '_'
    /// blanks, anything else is skipped. Exactly 81 symbols must remain,
    /// else `MalformedInput`. Clues are marked given.
    pub fn parse(text: &str) -> (r: Result<Board, SudokuError>)
        ensures
            digits_of(text@).len() != 81 <==> r == Err::<Board, SudokuError>(SudokuError::MalformedInput),
            digits_of(text@).len() == 81 ==> r is Ok,
            r is Err ==> r == Err::<Board, SudokuError>(SudokuError::MalformedInput),
            r is Ok ==> r->Ok_0.vals() == digits_of(text@) && r->Ok_0.wf() && forall|i: int|
                0 <= i < 81 ==> (#[trigger] r->Ok_0.cells@[i / 9]@[i % 9]).fixed == (digits_of(text@)[i] != 0),
    {
        let n = text.unicode_len();
        let mut digits: Vec<u8> = Vec::new();
        let mut i: usize = 0;
        while i < n
            invariant
                i <= n,
                n == text@.len(),
                digits@ == digits_of(text@.take(i as int)),
                forall|k: int| 0 <= k < digits@.len() ==> #[trigger] digits@[k] <= 9,
            decreases n - i,
        {
            let ch = text.get_char(i);
            assert(text@.take(i + 1).drop_last() =~= text@.take(i as int));
            if '1' <= ch && ch <= '9' {
                digits.push((ch as u32 - 48) as u8);
            } else if ch == '0' || ch == '.' || ch == '_' {
                digits.push(0);
            }
            i = i + 1;
        }
        assert(text@.take(n as int) =~= text@);
        if digits.len() != 81 {
            return Err(SudokuError::MalformedInput);
        }
        let mut b = Board::empty();
        let mut r: usize = 0;
        while r < 9
            invariant
                r <= 9,
                digits@.len() == 81,
                forall|j: int| 0 <= j < 81 ==> #[trigger] digits@[j] <= 9,
                forall|r2: int, c2: int| 0 <= r2 < r && 0 <= c2 < 9 ==> #[trigger] b.cells@[r2]@[c2] == (Cell {
                    value: digits@[r2 * 9 + c2],
                    fixed: digits@[r2 * 9 + c2] != 0,
                }),
            decreases 9 - r,
        {
            let mut c: usize = 0;
            while c < 9
                invariant
                    r < 9,
                    c <= 9,
                    digits@.len() == 81,
                    forall|r2: int, c2: int| 0 <= r2 < r && 0 <= c2 < 9 ==> #[trigger] b.cells@[r2]@[c2] == (Cell {
                        value: digits@[r2 * 9 + c2],
                        fixed: digits@[r2 * 9 + c2] != 0,
                    }),
                    forall|c2: int| 0 <= c2 < c ==> #[trigger] b.cells@[r as int]@[c2] == (Cell {
                        value: digits@[r * 9 + c2],
                        fixed: digits@[r * 9 + c2] != 0,
                    }),
                decreases 9 - c,
            {
                let v = digits[r * 9 + c];
                b.cells[r][c] = Cell { value: v, fixed: v != 0 };
                c = c + 1;
            }
            r = r + 1;
        }
        proof {
            assert forall|i: int| 0 <= i < 81 implies #[trigger] b.cells@[i / 9]@[i % 9] == (Cell {
                value: digits@[i],
                fixed: digits@[i] != 0,
            }) by {
                assert(i == (i / 9) * 9 + i % 9);
            }
        }
        assert(b.vals() =~= digits@);
        Ok(b)
    }

    /// The digit at row `r`, column `c`.
    pub open spec fn val(&self, r: int, c: int) -> u8 {
        self.cells@[r]@[c].value
    }

    proof fn lemma_val(&self, r: int, c: int)
        requires
            0 <= r < 9,
            0 <= c < 9,
        ensures
            self.vals()[r * 9 + c] == self.val(r, c),
    {
        assert((r * 9 + c) / 9 == r);
        assert((r * 9 + c) % 9 == c);
    }

    /// The digit of cell index `i`.
    pub(crate) fn at(&self, i: usize) -> (v: u8)
        requires
            i < 81,
        ensures
            v == self.vals()[i as int],
    {
        self.cells[i / 9][i % 9].value
    }

    /// The nine digits of unit `u`.
    fn unit_values(&self, u: usize) -> (a: [u8; 9])
        requires
            u < 27,
        ensures
            a@ == unit_seq(self.vals(), u as int),
    {
        let mut a = [0u8; 9];
        let mut k: usize = 0;
        while k < 9
            invariant
                k <= 9,
                u < 27,
                forall|j: int| 0 <= j < k ==> #[trigger] a@[j] == self.vals()[unit_cell(u as int, j)],
            decreases 9 - k,
        {
            a[k] = self.at(unit_cell_idx(u, k));
            k = k + 1;
        }
        assert(a@ =~= unit_seq(self.vals(), u as int));
        a
    }

    /// The digits of row `r`, left to right.
    pub fn row_values(&self, r: usize) -> (a: [u8; 9])
        requires
            r < 9,
        ensures
            forall|c: int| 0 <= c < 9 ==> #[trigger] a@[c] == self.val(r as int, c),
            a@ == unit_seq(self.vals(), r as int),
    {
        let a = self.unit_values(r);
        proof {
            assert forall|c: int| 0 <= c < 9 implies #[trigger] a@[c] == self.val(r as int, c) by {
                self.lemma_val(r as int, c);
            }
        }
        a
    }

    /// The digits of column `c`, top to bottom.
    pub fn col_values(&self, c: usize) -> (a: [u8; 9])
        requires
            c < 9,
        ensures
            forall|r: int| 0 <= r < 9 ==> #[trigger] a@[r] == self.val(r, c as int),
            a@ == unit_seq(self.vals(), 9 + c),
    {
        let a = self.unit_values(9 + c);
        proof {
            assert forall|r: int| 0 <= r < 9 implies #[trigger] a@[r] == self.val(r, c as int) by {
                self.lemma_val(r, c as int);
            }
        }
        a
    }

    /// The digits of box (`br`, `bc`), in row-major order.
    pub fn box_values(&self, br: usize, bc: usize) -> (a: [u8; 9])
        requires
            br < 3,
            bc < 3,
        ensures
            forall|k: int| 0 <= k < 9 ==> #[trigger] a@[k] == self.val(br * 3 + k / 3, bc * 3 + k % 3),
            a@ == unit_seq(self.vals(), 18 + br * 3 + bc),
    {
        let a = self.unit_values(18 + br * 3 + bc);
        proof {
            assert forall|k: int| 0 <= k < 9 implies #[trigger] a@[k] == self.val(br * 3 + k / 3, bc * 3 + k % 3) by {
                let u = 18 + br * 3 + bc;
                assert((u - 18) / 3 == br && (u - 18) % 3 == bc);
                self.lemma_val(br * 3 + k / 3, bc * 3 + k % 3);
            }
        }
        a
    }

    /// Whether no row, column or box repeats a digit.
    pub fn is_valid(&self) -> (r: bool)
        requires
            self.wf(),
        ensures
            r == self.valid(),
    {
        proof {
            lemma_no_conflict_units(self.vals());
        }
        let mut u: usize = 0;
        while u < 27
            invariant
                u <= 27,
                self.wf(),
                forall|w: int| 0 <= w < u ==> dupfree(#[trigger] unit_seq(self.vals(), w)),
            decreases 27 - u,
        {
            let a = self.unit_values(u);
            proof {
                assert forall|k: int| 0 <= k < 9 implies #[trigger] a@[k] <= 9 by {
                    lemma_unit_cell(u as int, k);
                }
            }
            if !no_dupes(a) {
                proof {
                    lemma_no_conflict_units(self.vals());
                    assert(!dupfree(unit_seq(self.vals(), u as int)));
                }
                return false;
            }
            u = u + 1;
        }
        true
    }

    /// Whether every cell is filled and no unit repeats a digit.
    pub fn is_solved(&self) -> (r: bool)
        requires
            self.wf(),
        ensures
            r == self.complete(),
    {
        let mut i: usize = 0;
        while i < 81
            invariant
                i <= 81,
                forall|k: int| 0 <= k < i ==> #[trigger] self.vals()[k] != 0,
            decreases 81 - i,
        {
            if self.at(i) == 0 {
                return false;
            }
            i = i + 1;
        }
        self.is_valid()
    }

    /// Candidates of the cell at (`r`, `c`), indexed by digit: none for a
    /// filled cell; for an empty one every digit that no peer holds. Index 0
    /// is never a candidate.
    pub fn candidates(&self, r: usize, c: usize) -> (f: [bool; 10])
        requires
            self.wf(),
            r < 9,
            c < 9,
        ensures
            forall|v: int| 0 <= v < 10 ==> #[trigger] f@[v] == Board::cand_spec(self.vals(), r * 9 + c, v),
    {
        let i = r * 9 + c;
        proof {
            self.lemma_val(r as int, c as int);
        }
        let x = self.cells[r][c].value;
        if x != 0 {
            return [false; 10];
        }
        let mut f = [false; 10];
        let mut v: usize = 1;
        while v <= 9
            invariant
                1 <= v <= 10,
                i == r * 9 + c,
                i < 81,
                self.vals()[i as int] == 0,
                f@[0] == false,
                forall|w: int| 0 <= w < 10 ==> #[trigger] f@[w] == (1 <= w < v && allowed(self.vals(), i as int, w)),
            decreases 10 - v,
        {
            let ok = self.digit_allowed(i, v as u8);
            f[v] = ok;
            v = v + 1;
        }
        f
    }

    /// What `candidates` reports for digit `v` at cell `i`.
    pub open spec fn cand_spec(vals: Seq<u8>, i: int, v: int) -> bool {
        vals[i] == 0 && allowed(vals, i, v)
    }

    /// Whether digit `d` may go in cell `i`: no cell of its row, column or
    /// box other than itself holds it.
    pub(crate) fn digit_allowed(&self, i: usize, d: u8) -> (r: bool)
        requires
            i < 81,
            1 <= d <= 9,
        ensures
            r == allowed(self.vals(), i as int, d as int),
    {
        let units: [usize; 3] = [crate::units::row_unit(i), crate::units::col_unit(i), crate::units::box_unit(i)];
        let mut t: usize = 0;
        while t < 3
            invariant
                t <= 3,
                i < 81,
                1 <= d <= 9,
                forall|s: int| 0 <= s < 3 ==> (#[trigger] units@[s]) < 27 && in_unit(units@[s] as int, i as int),
                forall|s: int, k: int| 0 <= s < t && 0 <= k < 9 && unit_cell(units@[s] as int, k) != i ==> self.vals()[#[trigger] unit_cell(units@[s] as int, k)] != d,
            decreases 3 - t,
        {
            let u = units[t];
            let mut k: usize = 0;
            while k < 9
                invariant
                    k <= 9,
                    t < 3,
                    u == units@[t as int],
                    u < 27,
                    i < 81,
                    forall|s: int| 0 <= s < 3 ==> (#[trigger] units@[s]) < 27 && in_unit(units@[s] as int, i as int),
                    forall|s: int, k2: int| 0 <= s < t && 0 <= k2 < 9 && unit_cell(units@[s] as int, k2) != i ==> self.vals()[#[trigger] unit_cell(units@[s] as int, k2)] != d,
                    forall|k2: int| 0 <= k2 < k && unit_cell(u as int, k2) != i ==> self.vals()[#[trigger] unit_cell(u as int, k2)] != d,
                decreases 9 - k,
            {
                let j = unit_cell_idx(u, k);
                if j != i && self.at(j) == d {
                    proof {
                        assert(in_unit(u as int, i as int));
                        assert(peer(i as int, j as int));
                    }
                    return false;
                }
                k = k + 1;
            }
            t = t + 1;
        }
        proof {
            assert forall|j: int| #[trigger] peer(i as int, j) implies self.vals()[j] != d as int by {
                let w = crate::units::lemma_peer_unit(i as int, j);
                let kj = crate::units::lemma_unit_pos(w, j);
                if w < 9 {
                    assert(w == units@[0] as int);
                } else if w < 18 {
                    assert(w == units@[1] as int);
                } else {
                    assert(w == units@[2] as int);
                }
            }
        }
        true
    }

    /// Cells whose digit is repeated in their row, column or box.
    pub fn conflict_mask(&self) -> (m: [[bool; 9]; 9])
        ensures
            forall|r: int, c: int| 0 <= r < 9 && 0 <= c < 9 ==> #[trigger] m@[r]@[c] == Board::in_conflict(self.vals(), r * 9 + c),
    {
        let mut m = [[false; 9]; 9];
        let mut r: usize = 0;
        while r < 9
            invariant
                r <= 9,
                forall|r2: int, c2: int| 0 <= r2 < r && 0 <= c2 < 9 ==> #[trigger] m@[r2]@[c2] == Board::in_conflict(self.vals(), r2 * 9 + c2),
            decreases 9 - r,
        {
            let mut c: usize = 0;
            while c < 9
                invariant
                    r < 9,
                    c <= 9,
                    forall|r2: int, c2: int| 0 <= r2 < r && 0 <= c2 < 9 ==> #[trigger] m@[r2]@[c2] == Board::in_conflict(self.vals(), r2 * 9 + c2),
                    forall|c2: int| 0 <= c2 < c ==> #[trigger] m@[r as int]@[c2] == Board::in_conflict(self.vals(), r * 9 + c2),
                decreases 9 - c,
            {
                let i = r * 9 + c;
                let v = self.at(i);
                let mut hit = false;
                if v != 0 {
                    let mut j: usize = 0;
                    while j < 81
                        invariant
                            j <= 81,
                            i < 81,
                            v == self.vals()[i as int],
                            v != 0,
                            hit <==> exists|q: int| 0 <= q < j && #[trigger] peer(i as int, q) && self.vals()[q] == v,
                        decreases 81 - j,
                    {
                        if crate::grid::is_peer(i, j) && self.at(j) == v {
                            hit = true;
                        }
                        j = j + 1;
                    }
                }
                m[r][c] = hit;
                c = c + 1;
            }
            r = r + 1;
        }
        m
    }

    /// Cell `i` holds a digit that one of its peers also holds.
    pub open spec fn in_conflict(vals: Seq<u8>, i: int) -> bool {
        vals[i] != 0 && exists|q: int| #[trigger] peer(i, q) && vals[q] == vals[i]
    }
}

/// Whether no nonzero digit repeats among the nine.
pub fn no_dupes(vals: [u8; 9]) -> (r: bool)
    requires
        forall|k: int| 0 <= k < 9 ==> #[trigger] vals@[k] <= 9,
    ensures
        r == dupfree(vals@),
{
    let mut seen = [false; 10];
    let mut k: usize = 0;
    while k < 9
        invariant
            k <= 9,
            forall|j: int| 0 <= j < 9 ==> #[trigger] vals@[j] <= 9,
            dupfree(vals@.take(k as int)),
            forall|v: int| 1 <= v < 10 ==> (#[trigger] seen@[v] <==> exists|j: int| 0 <= j < k && vals@[j] == v),
        decreases 9 - k,
    {
        let v = vals[k];
        if v != 0 {
            if seen[v as usize] {
                proof {
                    let j = choose|j: int| 0 <= j < k && vals@[j] == v;
                    assert(vals@[j] == vals@[k as int]);
                }
                return false;
            }
            seen[v as usize] = true;
        }
        proof {
            assert forall|a: int, b: int|
                0 <= a < k + 1 && 0 <= b < k + 1 && a != b && vals@.take(k + 1)[a] != 0 implies #[trigger] vals@.take(k + 1)[a]
                != #[trigger] vals@.take(k + 1)[b] by {
                if a < k && b < k {
                    assert(vals@.take(k as int)[a] != vals@.take(k as int)[b]);
                }
            }
        }
        k = k + 1;
    }
    assert(vals@.take(9) =~= vals@);
    true
}

} // verus!

//! The candidate-tracking board: 81 cells in row-major order, each with a
//! committed digit (0 when empty) and a mask of the digits still allowed.
use vstd::prelude::*;
use vstd::string::*;
use crate::bits::{
    all_candidates, clear_bit, full_mask, has_bit, lemma_full_mask, lemma_without, lemma_without_all, lemma_without_zero,
    lemma_no_bits_zero, lemma_subset_popcount, lemma_zero_mask, popcount, subset_mask, test_bit, without,
};
use crate::error::SudokuError;

verus! {

/// A digit of a cell: 0 for empty, 1..=9 otherwise.
pub type Digit = u8;

/// Row of cell index `i`.
pub open spec fn row_of(i: int) -> int {
    i / 9
}

/// Column of cell index `i`.
pub open spec fn col_of(i: int) -> int {
    i % 9
}

/// 3x3 box (numbered 0..9 in row-major order) of cell index `i`.
pub open spec fn box_of(i: int) -> int {
    (i / 27) * 3 + (i % 9) / 3
}

/// `i` and `j` are distinct cells sharing a row, a column or a box.
pub open spec fn peer(i: int, j: int) -> bool {
    &&& 0 <= i < 81
    &&& 0 <= j < 81
    &&& i != j
    &&& (row_of(i) == row_of(j) || col_of(i) == col_of(j) || box_of(i) == box_of(j))
}

/// Digit `d` may go in cell `i`: it is in 1..=9 and no peer holds it.
pub open spec fn allowed(cells: Seq<u8>, i: int, d: int) -> bool {
    &&& 1 <= d <= 9
    &&& forall|j: int| #[trigger] peer(i, j) ==> cells[j] != d
}

/// No two peers hold the same nonzero digit.
pub open spec fn no_conflict(cells: Seq<u8>) -> bool {
    forall|i: int, j: int| #[trigger] peer(i, j) && cells[i] != 0 ==> cells[i] != cells[j]
}

/// Every cell holds a digit.
pub open spec fn all_filled(cells: Seq<u8>) -> bool {
    forall|i: int| 0 <= i < 81 ==> #[trigger] cells[i] != 0
}

/// A complete, conflict-free assignment of the 81 cells.
pub open spec fn is_solution(sol: Seq<u8>) -> bool {
    &&& sol.len() == 81
    &&& forall|i: int| 0 <= i < 81 ==> 1 <= #[trigger] sol[i] <= 9
    &&& no_conflict(sol)
}

/// Number of empty cells among the first `n`.
pub open spec fn empty_below(cells: Seq<u8>, n: int) -> nat
    decreases n,
{
    if n <= 0 {
        0
    } else {
        empty_below(cells, n - 1) + if cells[n - 1] == 0 { 1nat } else { 0nat }
    }
}

/// Number of empty cells.
pub open spec fn empty_count(cells: Seq<u8>) -> nat {
    empty_below(cells, 81)
}

/// The compact character of a cell digit: '.' for empty.
pub open spec fn digit_char(d: u8) -> char {
    if d == 0 {
        '.'
    } else {
        ((d + 48) as u8) as char
    }
}

/// The digit a puzzle character stands for, if it is recognised.
pub open spec fn char_digit(ch: char) -> Option<u8> {
    if '1' <= ch && ch <= '9' {
        Some((ch as u32 - 48) as u8)
    } else if ch == '0' || ch == '.' || ch == '_' {
        Some(0u8)
    } else {
        None
    }
}

/// The digit a character of compact text stands for: '1'..='9', or 0 for
/// '0' and '.'.
pub open spec fn compact_digit(ch: char) -> Option<u8> {
    if ch == '_' {
        None
    } else {
        char_digit(ch)
    }
}

/// Every character of `s` is recognised compact text.
pub open spec fn all_recognised(s: Seq<char>) -> bool {
    forall|i: int| 0 <= i < s.len() ==> (#[trigger] compact_digit(s[i])) is Some
}

/// The cells that an 81-character compact text describes.
pub open spec fn cells_of(s: Seq<char>) -> Seq<u8> {
    Seq::new(s.len(), |i: int| compact_digit(s[i])->Some_0)
}

/// The 81-character compact text of a row of cells.
pub open spec fn compact_of(cells: Seq<u8>) -> Seq<char> {
    Seq::new(cells.len(), |i: int| digit_char(cells[i]))
}

/// The exact candidate mask of cell `i` given the committed digits:
/// empty for a filled cell, otherwise the digits allowed there.
pub open spec fn exact_mask(cells: Seq<u8>, i: int, m: u16) -> bool {
    if cells[i] != 0 {
        m == 0
    } else {
        forall|d: u16| d < 16 ==> (#[trigger] has_bit(m, d) <==> allowed(cells, i, d as int))
    }
}

/// Some empty cell has no allowed digit.
pub open spec fn stuck(cells: Seq<u8>) -> bool {
    exists|i: int|
        0 <= i < 81 && #[trigger] cells[i] == 0 && forall|d: int| 1 <= d <= 9 ==> !allowed(cells, i, d)
}

/// A cell position.
#[derive(Clone, Copy, Debug, PartialEq, Eq, Hash, Structural)]
pub struct Pos {
    pub r: usize,
    pub c: usize,
}

impl Pos {
    /// The position lies on the board.
    pub open spec fn valid(self) -> bool {
        self.r < 9 && self.c < 9
    }

    /// Row-major index of the position.
    pub fn idx(self) -> (r: usize)
        requires
            self.valid(),
        ensures
            r == self.r * 9 + self.c,
            r < 81,
    {
        self.r * 9 + self.c
    }
}

/// Whether cells `i` and `j` are peers.
pub fn is_peer(i: usize, j: usize) -> (r: bool)
    requires
        i < 81,
        j < 81,
    ensures
        r == peer(i as int, j as int),
{
    i != j && (i / 9 == j / 9 || i % 9 == j % 9 || (i / 27 == j / 27 && (i % 9) / 3 == (j % 9) / 3))
}

/// The peers of cell `idx`, in ascending order.
fn peers_of_idx(idx: usize) -> (v: Vec<usize>)
    requires
        idx < 81,
    ensures
        forall|j: usize|
            #![trigger v@.contains(j)]
            #![trigger peer(idx as int, j as int)]
            v@.contains(j) <==> j < 81 && peer(idx as int, j as int),
        forall|k: int| 0 <= k < v@.len() ==> #[trigger] v@[k] < 81,
        forall|a: int, b: int| 0 <= a < b < v@.len() ==> v@[a] < v@[b],
{
    let mut v: Vec<usize> = Vec::new();
    let mut j: usize = 0;
    while j < 81
        invariant
            j <= 81,
            idx < 81,
            forall|q: usize|
                #![trigger v@.contains(q)]
                #![trigger peer(idx as int, q as int)]
                v@.contains(q) <==> (q < 81 && peer(idx as int, q as int) && q < j),
            forall|k: int| 0 <= k < v@.len() ==> #[trigger] v@[k] < j,
            forall|a: int, b: int| 0 <= a < b < v@.len() ==> v@[a] < v@[b],
        decreases 81 - j,
    {
        let ghost before = v@;
        if is_peer(idx, j) {
            v.push(j);
            proof {
                assert forall|q: usize| v@.contains(q) <==> (before.contains(q) || q == j) by {
                    if q == j {
                        assert(v@[before.len() as int] == j);
                    }
                    if v@.contains(q) && q != j {
                        let k = choose|k: int| 0 <= k < v@.len() && v@[k] == q;
                        assert(before[k] == q);
                    }
                    if before.contains(q) {
                        let k = choose|k: int| 0 <= k < before.len() && before[k] == q;
                        assert(v@[k] == q);
                    }
                }
            }
        }
        j = j + 1;
    }
    v
}

/// The peers of position `p`, as ascending row-major indices.
pub fn peers_of(p: Pos) -> (v: Vec<usize>)
    requires
        p.valid(),
    ensures
        forall|j: usize|
            #![trigger v@.contains(j)]
            #![trigger peer(p.r * 9 + p.c, j as int)]
            v@.contains(j) <==> j < 81 && peer(p.r * 9 + p.c, j as int),
        forall|k: int| 0 <= k < v@.len() ==> #[trigger] v@[k] < 81,
        forall|a: int, b: int| 0 <= a < b < v@.len() ==> v@[a] < v@[b],
{
    peers_of_idx(p.idx())
}

/// Relies on std's `FromIterator<char>` for `String`: the string holds the
/// characters in order.
#[verifier::external_body]
pub(crate) fn string_from_chars(cs: &Vec<char>) -> (r: String)
    ensures
        r@ == cs@,
{
    cs.iter().collect()
}

/// The 81-cell board with per-cell candidate masks.
#[derive(Clone, Copy, Debug)]
pub struct Grid {
    /// 0 = empty; 1..=9 digits.
    pub cells: [Digit; 81],
    /// Candidate mask per cell; bit `d` means digit `d` is possible.
    pub cands: [u16; 81],
}

impl Grid {
    /// The board's invariant: digits in range, filled cells have no
    /// candidates, an empty cell's candidates are allowed there, and no two
    /// peers hold the same digit.
    pub open spec fn wf(&self) -> bool {
        &&& forall|i: int| 0 <= i < 81 ==> #[trigger] self.cells@[i] <= 9
        &&& forall|i: int| 0 <= i < 81 && #[trigger] self.cells@[i] != 0 ==> self.cands@[i] == 0
        &&& forall|i: int, d: u16|
            0 <= i < 81 && self.cells@[i] == 0 && d < 16 && #[trigger] has_bit(self.cands@[i], d)
                ==> allowed(self.cells@, i, d as int)
        &&& no_conflict(self.cells@)
    }

    /// Every cell holds a digit.
    pub open spec fn solved(&self) -> bool {
        all_filled(self.cells@)
    }

    /// `sol` is a solution that agrees with every committed digit and picks,
    /// in each empty cell, one of its candidates.
    pub open spec fn consistent(&self, sol: Seq<u8>) -> bool {
        &&& is_solution(sol)
        &&& forall|i: int|
            0 <= i < 81 ==> if self.cells@[i] != 0 {
                #[trigger] sol[i] == self.cells@[i]
            } else {
                has_bit(self.cands@[i], sol[i] as u16)
            }
    }

    /// `self` is `old` with some empty cells filled by one of their
    /// candidates, and the candidates of the others narrowed.
    pub open spec fn narrows(&self, old: Grid) -> bool {
        forall|i: int|
            0 <= i < 81 ==> if old.cells@[i] != 0 {
                #[trigger] self.cells@[i] == old.cells@[i]
            } else if self.cells@[i] != 0 {
                has_bit(old.cands@[i], self.cells@[i] as u16)
            } else {
                subset_mask(self.cands@[i], old.cands@[i])
            }
    }

    /// The candidate masks after committing digit `d` at cell `idx`.
    pub open spec fn placed_cands(&self, idx: int, d: u8) -> Seq<u16> {
        Seq::new(
            81,
            |q: int|
                if q == idx {
                    0u16
                } else if peer(idx, q) {
                    without(self.cands@[q], d as u16)
                } else {
                    self.cands@[q]
                },
        )
    }

    /// An empty board with every digit allowed everywhere.
    pub fn empty() -> (g: Grid)
        ensures
            g.wf(),
            forall|i: int| 0 <= i < 81 ==> #[trigger] g.cells@[i] == 0 && g.cands@[i] == full_mask(),
    {
        let g = Grid { cells: [0u8; 81], cands: [all_candidates(); 81] };
        proof {
            assert forall|i: int, d: u16|
                0 <= i < 81 && g.cells@[i] == 0 && d < 16 && #[trigger] has_bit(g.cands@[i], d)
                implies allowed(g.cells@, i, d as int) by {
                lemma_full_mask(d);
            }
        }
        g
    }

    /// The digit at `p` (0 when empty).
    pub fn get(&self, p: Pos) -> (d: Digit)
        requires
            p.valid(),
        ensures
            d == self.cells@[p.r * 9 + p.c],
    {
        self.cells[p.idx()]
    }

    /// The candidate mask at `p`.
    pub fn candidates(&self, p: Pos) -> (m: u16)
        requires
            p.valid(),
        ensures
            m == self.cands@[p.r * 9 + p.c],
    {
        self.cands[p.idx()]
    }

    /// Every cell holds a digit.
    pub fn is_solved(&self) -> (r: bool)
        ensures
            r == self.solved(),
    {
        let mut i: usize = 0;
        while i < 81
            invariant
                i <= 81,
                forall|k: int| 0 <= k < i ==> #[trigger] self.cells@[k] != 0,
            decreases 81 - i,
        {
            if self.cells[i] == 0 {
                return false;
            }
            i = i + 1;
        }
        true
    }

    /// Commits digit `d` at `p`; see [`Grid::place_idx`].
    pub fn set(&mut self, p: Pos, d: Digit) -> (r: Result<(), SudokuError>)
        requires
            old(self).wf(),
            p.valid(),
        ensures
            Grid::place_outcome(*old(self), *final(self), p.r * 9 + p.c, d, r),
    {
        self.place_idx(p.idx(), d)
    }

    /// What placing `d` at `idx` does: an invalid placement leaves the board
    /// unchanged; otherwise the digit is committed, its own candidates
    /// cleared and `d` removed from every peer, and the result is a
    /// contradiction exactly when some empty peer is left without candidates.
    pub open spec fn place_outcome(old: Grid, new: Grid, idx: int, d: u8, r: Result<(), SudokuError>) -> bool {
        let valid = 1 <= d <= 9 && old.cells@[idx] == 0 && has_bit(old.cands@[idx], d as u16);
        &&& !valid ==> r == Err::<(), SudokuError>(SudokuError::InvalidPlacement) && new == old
        &&& valid ==> {
            &&& new.cells@ == old.cells@.update(idx, d)
            &&& new.cands@ == old.placed_cands(idx, d)
            &&& new.wf()
            &&& new.narrows(old)
            &&& (r is Err <==> exists|q: int|
                peer(idx, q) && #[trigger] new.cells@[q] == 0 && new.cands@[q] == 0)
            &&& r is Err ==> r == Err::<(), SudokuError>(SudokuError::Contradiction)
        }
    }

    fn place_idx(&mut self, idx: usize, d: Digit) -> (r: Result<(), SudokuError>)
        requires
            old(self).wf(),
            idx < 81,
        ensures
            Grid::place_outcome(*old(self), *final(self), idx as int, d, r),
    {
        if d < 1 || d > 9 {
            return Err(SudokuError::InvalidPlacement);
        }
        if self.cells[idx] != 0 {
            return Err(SudokuError::InvalidPlacement);
        }
        if !test_bit(self.cands[idx], d as u16) {
            return Err(SudokuError::InvalidPlacement);
        }
        let ghost old_g = *self;
        self.cells[idx] = d;
        self.cands[idx] = 0;
        let mut q: usize = 0;
        let mut stuck_peer = false;
        while q < 81
            invariant
                q <= 81,
                idx < 81,
                1 <= d <= 9,
                self.cells@ == old_g.cells@.update(idx as int, d),
                self.cands@.len() == 81,
                forall|k: int|
                    0 <= k < 81 ==> #[trigger] self.cands@[k] == if k < q {
                        old_g.placed_cands(idx as int, d)[k]
                    } else if k == idx {
                        0u16
                    } else {
                        old_g.cands@[k]
                    },
                stuck_peer <==> exists|k: int|
                    0 <= k < q && peer(idx as int, k) && #[trigger] self.cells@[k] == 0
                        && self.cands@[k] == 0,
            decreases 81 - q,
        {
            if is_peer(idx, q) {
                let m = clear_bit(self.cands[q], d as u16);
                self.cands[q] = m;
                if self.cells[q] == 0 && m == 0 {
                    stuck_peer = true;
                }
            }
            proof {
                if stuck_peer {
                    let w = choose|k: int|
                        0 <= k <= q && peer(idx as int, k) && #[trigger] self.cells@[k] == 0
                            && self.cands@[k] == 0;
                }
            }
            q = q + 1;
        }
        assert(self.cands@ =~= old_g.placed_cands(idx as int, d));
        proof {
            Grid::lemma_place_wf(old_g, *self, idx as int, d);
        }
        if stuck_peer {
            Err(SudokuError::Contradiction)
        } else {
            Ok(())
        }
    }

    proof fn lemma_place_wf(old: Grid, new: Grid, idx: int, d: u8)
        requires
            old.wf(),
            0 <= idx < 81,
            1 <= d <= 9,
            old.cells@[idx] == 0,
            has_bit(old.cands@[idx], d as u16),
            new.cells@ == old.cells@.update(idx, d),
            new.cands@ == old.placed_cands(idx, d),
        ensures
            new.wf(),
            new.narrows(old),
    {
        assert(allowed(old.cells@, idx, d as int));
        assert forall|i: int, e: u16|
            0 <= i < 81 && new.cells@[i] == 0 && e < 16 && #[trigger] has_bit(new.cands@[i], e)
            implies allowed(new.cells@, i, e as int) by {
            assert(i != idx);
            if peer(idx, i) {
                lemma_without(old.cands@[i], d as u16, e);
            }
            assert(has_bit(old.cands@[i], e));
            assert(allowed(old.cells@, i, e as int));
            assert forall|j: int| #[trigger] peer(i, j) implies new.cells@[j] != e as int by {
                if j == idx {
                    assert(peer(idx, i));
                }
            }
        }
        assert forall|i: int, j: int| #[trigger] peer(i, j) && new.cells@[i] != 0 implies new.cells@[i]
            != new.cells@[j] by {
            if i == idx {
                assert(peer(idx, j));
            } else if j == idx {
                assert(peer(idx, i));
            }
        }
        assert forall|i: int| 0 <= i < 81 && #[trigger] new.cells@[i] != 0 implies new.cands@[i] == 0 by {
            if i != idx && peer(idx, i) {
                lemma_without_zero(d as u16);
            }
        }
        assert forall|i: int| 0 <= i < 81 implies (if old.cells@[i] != 0 {
            #[trigger] new.cells@[i] == old.cells@[i]
        } else if new.cells@[i] != 0 {
            has_bit(old.cands@[i], new.cells@[i] as u16)
        } else {
            subset_mask(new.cands@[i], old.cands@[i])
        }) by {
            if old.cells@[i] == 0 && new.cells@[i] == 0 && peer(idx, i) {
                lemma_without_all(old.cands@[i], d as u16);
            }
        }
    }
}


/// The candidate mask that the committed digits leave for cell `i`.
fn allowed_mask(cells: &[u8; 81], i: usize) -> (m: u16)
    requires
        i < 81,
        forall|k: int| 0 <= k < 81 ==> #[trigger] cells@[k] <= 9,
    ensures
        forall|d: u16| d < 16 ==> (#[trigger] has_bit(m, d) <==> allowed(cells@, i as int, d as int)),
{
    let mut m = all_candidates();
    let mut q: usize = 0;
    while q < 81
        invariant
            q <= 81,
            i < 81,
            forall|k: int| 0 <= k < 81 ==> #[trigger] cells@[k] <= 9,
            forall|d: u16|
                d < 16 ==> (#[trigger] has_bit(m, d) <==> (1 <= d <= 9 && !exists|j: int|
                    0 <= j < q && #[trigger] peer(i as int, j) && cells@[j] == d)),
        decreases 81 - q,
    {
        if is_peer(i, q) && cells[q] != 0 {
            let e = cells[q];
            let m2 = clear_bit(m, e as u16);
            assert forall|d: u16| d < 16 implies (#[trigger] has_bit(m2, d) <==> (1 <= d <= 9 && !exists|j: int|
                0 <= j < q + 1 && #[trigger] peer(i as int, j) && cells@[j] == d)) by {
                if has_bit(m2, d) {
                    assert(has_bit(m, d) && d != e);
                    if exists|j: int| 0 <= j < q + 1 && #[trigger] peer(i as int, j) && cells@[j] == d {
                        let j = choose|j: int| 0 <= j < q + 1 && #[trigger] peer(i as int, j) && cells@[j] == d;
                        assert(j != q);
                    }
                } else if 1 <= d <= 9 && d != e {
                    assert(!has_bit(m, d));
                    let j = choose|j: int| 0 <= j < q && #[trigger] peer(i as int, j) && cells@[j] == d;
                    assert(0 <= j < q + 1 && peer(i as int, j) && cells@[j] == d);
                } else if d == e {
                    assert(peer(i as int, q as int) && cells@[q as int] == d);
                }
            }
            m = m2;
        } else {
            assert forall|d: u16| d < 16 implies (#[trigger] has_bit(m, d) <==> (1 <= d <= 9 && !exists|j: int|
                0 <= j < q + 1 && #[trigger] peer(i as int, j) && cells@[j] == d)) by {
                if 1 <= d <= 9 && exists|j: int| 0 <= j < q + 1 && #[trigger] peer(i as int, j) && cells@[j] == d {
                    let j = choose|j: int| 0 <= j < q + 1 && #[trigger] peer(i as int, j) && cells@[j] == d;
                    assert(j != q);
                    assert(0 <= j < q && peer(i as int, j) && cells@[j] == d);
                }
            }
        }
        q = q + 1;
    }
    assert forall|d: u16| d < 16 implies (#[trigger] has_bit(m, d) <==> allowed(cells@, i as int, d as int)) by {
        if has_bit(m, d) {
            assert forall|j: int| #[trigger] peer(i as int, j) implies cells@[j] != d as int by {
                if cells@[j] == d as int {
                    assert(0 <= j < 81 && peer(i as int, j) && cells@[j] == d);
                }
            }
        }
        if allowed(cells@, i as int, d as int) {
            if exists|j: int| 0 <= j < 81 && #[trigger] peer(i as int, j) && cells@[j] == d {
                let j = choose|j: int| 0 <= j < 81 && #[trigger] peer(i as int, j) && cells@[j] == d;
                assert(cells@[j] != d as int);
            }
        }
    }
    m
}

/// Whether no two peers of `cells` hold the same digit.
pub fn check_no_conflict(cells: &[u8; 81]) -> (r: bool)
    ensures
        r == no_conflict(cells@),
{
    let mut i: usize = 0;
    while i < 81
        invariant
            i <= 81,
            forall|a: int, b: int| 0 <= a < i && #[trigger] peer(a, b) && cells@[a] != 0 ==> cells@[a] != cells@[b],
        decreases 81 - i,
    {
        let mut j: usize = 0;
        while j < 81
            invariant
                i < 81,
                j <= 81,
                forall|a: int, b: int| 0 <= a < i && #[trigger] peer(a, b) && cells@[a] != 0 ==> cells@[a] != cells@[b],
                forall|b: int| 0 <= b < j && #[trigger] peer(i as int, b) && cells@[i as int] != 0 ==> cells@[i as int] != cells@[b],
            decreases 81 - j,
        {
            if is_peer(i, j) && cells[i] != 0 && cells[i] == cells[j] {
                assert(peer(i as int, j as int));
                return false;
            }
            j = j + 1;
        }
        i = i + 1;
    }
    true
}

impl Grid {
    /// Resets every candidate mask from the committed digits: a filled cell
    /// gets none, an empty cell every digit that no peer holds. Fails with a
    /// contradiction exactly when some empty cell is left with no candidate.
    pub fn infer_all_candidates(&mut self) -> (r: Result<(), SudokuError>)
        requires
            forall|i: int| 0 <= i < 81 ==> #[trigger] old(self).cells@[i] <= 9,
        ensures
            final(self).cells == old(self).cells,
            forall|i: int| 0 <= i < 81 ==> exact_mask(final(self).cells@, i, #[trigger] final(self).cands@[i]),
            no_conflict(old(self).cells@) ==> final(self).wf(),
            r is Err <==> exists|i: int| 0 <= i < 81 && #[trigger] final(self).cells@[i] == 0 && final(self).cands@[i] == 0,
            r is Err <==> stuck(old(self).cells@),
            r is Err ==> r == Err::<(), SudokuError>(SudokuError::Contradiction),
    {
        let ghost cells = self.cells@;
        let mut i: usize = 0;
        let mut stuck_cell = false;
        while i < 81
            invariant
                i <= 81,
                self.cells@ == cells,
                forall|k: int| 0 <= k < 81 ==> #[trigger] cells[k] <= 9,
                forall|k: int| 0 <= k < i ==> exact_mask(cells, k, #[trigger] self.cands@[k]),
                stuck_cell <==> exists|k: int| 0 <= k < i && #[trigger] cells[k] == 0 && self.cands@[k] == 0,
            decreases 81 - i,
        {
            if self.cells[i] != 0 {
                self.cands[i] = 0;
            } else {
                let m = allowed_mask(&self.cells, i);
                self.cands[i] = m;
                if m == 0 {
                    stuck_cell = true;
                }
            }
            proof {
                if stuck_cell {
                    let w = choose|k: int| 0 <= k <= i && #[trigger] cells[k] == 0 && self.cands@[k] == 0;
                }
            }
            i = i + 1;
        }
        proof {
            Grid::lemma_exact_masks(*self);
        }
        if stuck_cell {
            Err(SudokuError::Contradiction)
        } else {
            Ok(())
        }
    }

    /// Exact masks make a well-formed board when no digits conflict, and an
    /// empty cell has a zero mask exactly when it has no allowed digit.
    proof fn lemma_exact_masks(g: Grid)
        requires
            forall|i: int| 0 <= i < 81 ==> #[trigger] g.cells@[i] <= 9,
            forall|i: int| 0 <= i < 81 ==> exact_mask(g.cells@, i, #[trigger] g.cands@[i]),
        ensures
            no_conflict(g.cells@) ==> g.wf(),
            (exists|i: int| 0 <= i < 81 && #[trigger] g.cells@[i] == 0 && g.cands@[i] == 0) <==> stuck(g.cells@),
    {
        assert forall|i: int| 0 <= i < 81 && #[trigger] g.cells@[i] != 0 implies g.cands@[i] == 0 by {
            assert(exact_mask(g.cells@, i, g.cands@[i]));
        }
        assert forall|i: int, d: u16|
            0 <= i < 81 && g.cells@[i] == 0 && d < 16 && #[trigger] has_bit(g.cands@[i], d)
            implies allowed(g.cells@, i, d as int) by {
            assert(exact_mask(g.cells@, i, g.cands@[i]));
        }
        if exists|i: int| 0 <= i < 81 && #[trigger] g.cells@[i] == 0 && g.cands@[i] == 0 {
            let i = choose|i: int| 0 <= i < 81 && #[trigger] g.cells@[i] == 0 && g.cands@[i] == 0;
            assert(exact_mask(g.cells@, i, g.cands@[i]));
            assert forall|d: int| 1 <= d <= 9 implies !allowed(g.cells@, i, d) by {
                lemma_zero_mask(d as u16);
                assert(!has_bit(g.cands@[i], d as u16));
            }
        }
        if stuck(g.cells@) {
            let i = choose|i: int|
                0 <= i < 81 && #[trigger] g.cells@[i] == 0 && forall|d: int| 1 <= d <= 9 ==> !allowed(g.cells@, i, d);
            assert(exact_mask(g.cells@, i, g.cands@[i]));
            assert forall|d: u16| d < 16 implies !#[trigger] has_bit(g.cands@[i], d) by {
                if has_bit(g.cands@[i], d) {
                    assert(allowed(g.cells@, i, d as int));
                }
            }
            lemma_no_bits_zero(g.cands@[i]);
        }
    }

    /// Parses 81 puzzle characters: '1'..='9' are clues, '0' and '.'
    /// blanks. Fails with `MalformedInput` on any other length or symbol,
    /// with `InvalidPlacement` when two peer clues hold the same digit, and
    /// with `Contradiction` when some empty cell has no candidate. On success
    /// the candidates are exact.
    pub fn from_compact(s: &str) -> (r: Result<Grid, SudokuError>)
        ensures
            (s@.len() != 81 || !all_recognised(s@)) <==> r == Err::<Grid, SudokuError>(SudokuError::MalformedInput),
            s@.len() == 81 && all_recognised(s@) ==> {
                let cells = cells_of(s@);
                &&& !no_conflict(cells) <==> r == Err::<Grid, SudokuError>(SudokuError::InvalidPlacement)
                &&& no_conflict(cells) && stuck(cells) <==> r == Err::<Grid, SudokuError>(SudokuError::Contradiction)
                &&& r is Ok ==> {
                    let g = r->Ok_0;
                    &&& g.wf()
                    &&& g.cells@ == cells
                    &&& forall|i: int| 0 <= i < 81 ==> exact_mask(cells, i, #[trigger] g.cands@[i])
                }
            },
    {
        let n = s.unicode_len();
        if n != 81 {
            return Err(SudokuError::MalformedInput);
        }
        let mut cells = [0u8; 81];
        let mut i: usize = 0;
        while i < 81
            invariant
                i <= 81,
                s@.len() == 81,
                forall|k: int| 0 <= k < i ==> (#[trigger] compact_digit(s@[k])) is Some,
                forall|k: int| 0 <= k < i ==> #[trigger] cells@[k] == compact_digit(s@[k])->Some_0,
                forall|k: int| 0 <= k < 81 ==> #[trigger] cells@[k] <= 9,
            decreases 81 - i,
        {
            let ch = s.get_char(i);
            let v: u8 = if '1' <= ch && ch <= '9' {
                (ch as u32 - 48) as u8
            } else if ch == '0' || ch == '.' {
                0
            } else {
                proof {
                    assert(!all_recognised(s@)) by {
                        assert(compact_digit(s@[i as int]) is None);
                    }
                }
                return Err(SudokuError::MalformedInput);
            };
            cells[i] = v;
            i = i + 1;
        }
        assert(all_recognised(s@));
        assert(cells@ =~= cells_of(s@));
        if !check_no_conflict(&cells) {
            return Err(SudokuError::InvalidPlacement);
        }
        let mut g = Grid { cells, cands: [0u16; 81] };
        match g.infer_all_candidates() {
            Ok(()) => Ok(g),
            Err(e) => Err(e),
        }
    }

    /// The 81-character text of the committed digits, '.' for empty cells.
    pub fn to_compact(&self) -> (r: String)
        requires
            forall|i: int| 0 <= i < 81 ==> #[trigger] self.cells@[i] <= 9,
        ensures
            r@ == compact_of(self.cells@),
    {
        let mut v: Vec<char> = Vec::new();
        let mut i: usize = 0;
        while i < 81
            invariant
                i <= 81,
                forall|k: int| 0 <= k < 81 ==> #[trigger] self.cells@[k] <= 9,
                v@ == compact_of(self.cells@).take(i as int),
            decreases 81 - i,
        {
            let d = self.cells[i];
            let ch = if d == 0 { '.' } else { (d + 48) as char };
            v.push(ch);
            assert(v@ =~= compact_of(self.cells@).take(i + 1));
            i = i + 1;
        }
        assert(v@ =~= compact_of(self.cells@));
        string_from_chars(&v)
    }

    /// The row-major positions of all 81 cells.
    pub fn iterate_cells() -> (v: Vec<Pos>)
        ensures
            v@.len() == 81,
            forall|i: int| 0 <= i < 81 ==> #[trigger] v@[i] == (Pos { r: (i / 9) as usize, c: (i % 9) as usize }),
    {
        let mut v: Vec<Pos> = Vec::new();
        let mut i: usize = 0;
        while i < 81
            invariant
                i <= 81,
                v@.len() == i,
                forall|k: int| 0 <= k < i ==> #[trigger] v@[k] == (Pos { r: (k / 9) as usize, c: (k % 9) as usize }),
            decreases 81 - i,
        {
            v.push(Pos { r: i / 9, c: i % 9 });
            i = i + 1;
        }
        v
    }
}

/// Parsing canonical puzzle text (clues '1'..='9' and '.' for blanks) and
/// writing the committed digits back out gives the same 81 characters.
pub proof fn lemma_compact_round_trip(s: Seq<char>)
    requires
        s.len() == 81,
        forall|i: int| 0 <= i < 81 ==> #[trigger] s[i] == '.' || ('1' <= s[i] && s[i] <= '9'),
    ensures
        all_recognised(s),
        compact_of(cells_of(s)) == s,
{
    assert forall|i: int| 0 <= i < 81 implies #[trigger] compact_of(cells_of(s))[i] == s[i] by {
        if s[i] != '.' {
            assert(('1' <= s[i] && s[i] <= '9'));
            assert((((s[i] as u32 - 48) as u8 + 48) as u8) as char == s[i]);
        }
    }
    assert(compact_of(cells_of(s)) =~= s);
}

/// Committing a digit never adds a candidate anywhere: every candidate mask
/// after a placement is contained in the one before, so no candidate count
/// grows.
pub proof fn lemma_place_monotonic(old: Grid, idx: int, d: u8)
    requires
        0 <= idx < 81,
        d <= 9,
    ensures
        forall|q: int| 0 <= q < 81 ==> subset_mask(#[trigger] old.placed_cands(idx, d)[q], old.cands@[q]),
        forall|q: int| 0 <= q < 81 ==> popcount(#[trigger] old.placed_cands(idx, d)[q]) <= popcount(old.cands@[q]),
{
    assert forall|q: int| 0 <= q < 81 implies subset_mask(#[trigger] old.placed_cands(idx, d)[q], old.cands@[q])
        && popcount(old.placed_cands(idx, d)[q]) <= popcount(old.cands@[q]) by {
        let n = old.placed_cands(idx, d)[q];
        if q == idx {
            assert forall|e: u16| e < 16 && #[trigger] has_bit(n, e) implies has_bit(old.cands@[q], e) by {
                lemma_zero_mask(e);
            }
        } else if peer(idx, q) {
            lemma_without_all(old.cands@[q], d as u16);
        }
        lemma_subset_popcount(n, old.cands@[q]);
    }
}


proof fn lemma_empty_below_fill(cells: Seq<u8>, i: int, d: u8, n: int)
    requires
        0 <= i < cells.len(),
        0 <= n <= cells.len(),
        cells[i] == 0,
        d != 0,
    ensures
        empty_below(cells.update(i, d), n) + (if i < n { 1nat } else { 0nat }) == empty_below(cells, n),
    decreases n,
{
    if n > 0 {
        lemma_empty_below_fill(cells, i, d, n - 1);
    }
}

/// Filling an empty cell leaves one empty cell fewer.
pub proof fn lemma_fill_decreases(cells: Seq<u8>, i: int, d: u8)
    requires
        cells.len() == 81,
        0 <= i < 81,
        cells[i] == 0,
        d != 0,
    ensures
        empty_count(cells.update(i, d)) + 1 == empty_count(cells),
{
    lemma_empty_below_fill(cells, i, d, 81);
}

impl Grid {
    /// Narrowing is transitive.
    pub proof fn lemma_narrows_trans(a: Grid, b: Grid, c: Grid)
        requires
            a.wf(),
            a.narrows(b),
            b.narrows(c),
        ensures
            a.narrows(c),
    {
        assert forall|i: int| 0 <= i < 81 implies (if c.cells@[i] != 0 {
            #[trigger] a.cells@[i] == c.cells@[i]
        } else if a.cells@[i] != 0 {
            has_bit(c.cands@[i], a.cells@[i] as u16)
        } else {
            subset_mask(a.cands@[i], c.cands@[i])
        }) by {
            assert(a.cells@[i] == a.cells@[i]);
            assert(b.cells@[i] == b.cells@[i]);
            if c.cells@[i] == 0 && b.cells@[i] == 0 {
                if a.cells@[i] != 0 {
                    assert(has_bit(b.cands@[i], a.cells@[i] as u16));
                } else {
                    assert forall|e: u16| e < 16 && #[trigger] has_bit(a.cands@[i], e) implies has_bit(c.cands@[i], e) by {
                        assert(has_bit(b.cands@[i], e));
                    }
                }
            }
        }
    }

    /// Every board narrows itself.
    pub proof fn lemma_narrows_refl(a: Grid)
        ensures
            a.narrows(a),
    {
        assert forall|i: int| 0 <= i < 81 implies (if a.cells@[i] != 0 {
            #[trigger] a.cells@[i] == a.cells@[i]
        } else if a.cells@[i] != 0 {
            has_bit(a.cands@[i], a.cells@[i] as u16)
        } else {
            subset_mask(a.cands@[i], a.cands@[i])
        }) by {}
    }

    /// A solved, well-formed board that narrows `old` is a solution
    /// consistent with `old`.
    pub proof fn lemma_solved_consistent(s: Grid, old: Grid)
        requires
            s.wf(),
            s.solved(),
            s.narrows(old),
        ensures
            old.consistent(s.cells@),
    {
        assert forall|i: int| 0 <= i < 81 implies 1 <= #[trigger] s.cells@[i] <= 9 by {}
        assert forall|i: int| 0 <= i < 81 implies (if old.cells@[i] != 0 {
            #[trigger] s.cells@[i] == old.cells@[i]
        } else {
            has_bit(old.cands@[i], s.cells@[i] as u16)
        }) by {
            assert(s.cells@[i] != 0);
        }
    }

    /// A solution consistent with a board stays consistent after committing
    /// the digit it has in the placed cell.
    pub proof fn lemma_place_keeps_solution(old: Grid, new: Grid, idx: int, sol: Seq<u8>)
        requires
            old.wf(),
            0 <= idx < 81,
            old.consistent(sol),
            old.cells@[idx] == 0,
            new.cells@ == old.cells@.update(idx, sol[idx]),
            new.cands@ == old.placed_cands(idx, sol[idx]),
        ensures
            new.consistent(sol),
    {
        let d = sol[idx];
        assert forall|i: int| 0 <= i < 81 implies (if new.cells@[i] != 0 {
            #[trigger] sol[i] == new.cells@[i]
        } else {
            has_bit(new.cands@[i], sol[i] as u16)
        }) by {
            if i != idx && old.cells@[i] == 0 && peer(idx, i) {
                lemma_without(old.cands@[i], d as u16, sol[i] as u16);
                assert(sol[i] != sol[idx]);
            }
            assert(sol[i] == sol[i]);
        }
    }
}


/// The border line of the drawing.
pub open spec fn pretty_border() -> Seq<char> {
    "+-------+-------+-------+\n"@
}

/// The drawing character of a digit: a middle dot for empty.
pub open spec fn pretty_char(d: u8) -> char {
    if d == 0 {
        '·'
    } else {
        ((d + 48) as u8) as char
    }
}

/// The first `n` cells of row `r` in the drawing.
pub open spec fn pretty_cells(cells: Seq<u8>, r: int, n: int) -> Seq<char>
    decreases n,
{
    if n <= 0 {
        Seq::empty()
    } else {
        pretty_cells(cells, r, n - 1) + (if (n - 1) % 3 == 0 { "| "@ } else { Seq::empty() }) + seq![
            pretty_char(cells[r * 9 + n - 1]),
            ' ',
        ]
    }
}

/// The first `n` rows of the drawing, with a border above each band.
pub open spec fn pretty_rows(cells: Seq<u8>, n: int) -> Seq<char>
    decreases n,
{
    if n <= 0 {
        Seq::empty()
    } else {
        pretty_rows(cells, n - 1) + (if (n - 1) % 3 == 0 { pretty_border() } else { Seq::empty() }) + pretty_cells(
            cells,
            n - 1,
            9,
        ) + "|\n"@
    }
}

impl Grid {
    /// A boxed drawing of the committed digits, '·' for empty cells.
    pub fn to_pretty_string(&self) -> (s: String)
        requires
            forall|i: int| 0 <= i < 81 ==> #[trigger] self.cells@[i] <= 9,
        ensures
            s@ == pretty_rows(self.cells@, 9) + pretty_border(),
    {
        let mut v: Vec<char> = Vec::new();
        let mut r: usize = 0;
        while r < 9
            invariant
                r <= 9,
                forall|i: int| 0 <= i < 81 ==> #[trigger] self.cells@[i] <= 9,
                v@ == pretty_rows(self.cells@, r as int),
            decreases 9 - r,
        {
            let ghost row_start = v@;
            if r % 3 == 0 {
                crate::text::push_text(&mut v, "+-------+-------+-------+\n");
            }
            let ghost cells_start = v@;
            let mut c: usize = 0;
            while c < 9
                invariant
                    r < 9,
                    c <= 9,
                    forall|i: int| 0 <= i < 81 ==> #[trigger] self.cells@[i] <= 9,
                    v@ == cells_start + pretty_cells(self.cells@, r as int, c as int),
                decreases 9 - c,
            {
                if c % 3 == 0 {
                    v.push('|');
                    v.push(' ');
                }
                let d = self.cells[r * 9 + c];
                v.push(if d == 0 { '·' } else { (d + 48) as char });
                v.push(' ');
                proof {
                    reveal_strlit("| ");
                    assert(v@ =~= cells_start + pretty_cells(self.cells@, r as int, c + 1));
                }
                c = c + 1;
            }
            v.push('|');
            v.push('\n');
            proof {
                reveal_strlit("|\n");
                assert(v@ =~= pretty_rows(self.cells@, r + 1));
            }
            r = r + 1;
        }
        crate::text::push_text(&mut v, "+-------+-------+-------+\n");
        string_from_chars(&v)
    }
}


/// Whatever a placement returns, no cell gains a candidate: every mask
/// afterwards is contained in the mask before, so no candidate count grows.
pub proof fn lemma_set_never_adds(old: Grid, new: Grid, idx: int, d: u8, r: Result<(), SudokuError>)
    requires
        0 <= idx < 81,
        Grid::place_outcome(old, new, idx, d, r),
    ensures
        forall|q: int| 0 <= q < 81 ==> subset_mask(#[trigger] new.cands@[q], old.cands@[q]),
        forall|q: int| 0 <= q < 81 ==> popcount(#[trigger] new.cands@[q]) <= popcount(old.cands@[q]),
{
    if 1 <= d <= 9 && old.cells@[idx] == 0 && has_bit(old.cands@[idx], d as u16) {
        lemma_place_monotonic(old, idx, d);
        assert forall|q: int| 0 <= q < 81 implies subset_mask(#[trigger] new.cands@[q], old.cands@[q])
            && popcount(new.cands@[q]) <= popcount(old.cands@[q]) by {
            assert(new.cands@[q] == old.placed_cands(idx, d)[q]);
        }
    } else {
        assert forall|q: int| 0 <= q < 81 implies subset_mask(#[trigger] new.cands@[q], old.cands@[q])
            && popcount(new.cands@[q]) <= popcount(old.cands@[q]) by {
            lemma_subset_popcount(new.cands@[q], old.cands@[q]);
        }
    }
}

/// A placement of a digit outside 1..=9, into a filled cell, or of a digit
/// that is not a candidate fails with `InvalidPlacement` and leaves the
/// board unchanged.
pub proof fn lemma_invalid_place_unchanged(old: Grid, new: Grid, idx: int, d: u8, r: Result<(), SudokuError>)
    requires
        0 <= idx < 81,
        Grid::place_outcome(old, new, idx, d, r),
        d < 1 || d > 9 || old.cells@[idx] != 0 || !has_bit(old.cands@[idx], d as u16),
    ensures
        r == Err::<(), SudokuError>(SudokuError::InvalidPlacement),
        new == old,
{
}

} // verus!

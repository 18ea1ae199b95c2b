use vstd::prelude::*;

verus! {

/// The ways an operation on a board can fail.
#[derive(Clone, Copy, Debug, PartialEq, Eq, Structural)]
pub enum SudokuError {
    /// Wrong character count or an unrecognised symbol in puzzle text.
    MalformedInput,
    /// A digit outside 1..=9, a filled cell, or a digit that is not a candidate.
    InvalidPlacement,
    /// Some empty cell is left without any candidate.
    Contradiction,
}

impl SudokuError {
    /// A short human-readable description of the error.
    pub fn message(&self) -> (r: &'static str)
        ensures
            r@ == match self {
                SudokuError::MalformedInput => "malformed puzzle input"@,
                SudokuError::InvalidPlacement => "invalid placement"@,
                SudokuError::Contradiction => "contradiction: a cell has no candidates left"@,
            },
    {
        match self {
            SudokuError::MalformedInput => {
                proof { reveal_strlit("malformed puzzle input"); }
                "malformed puzzle input"
            },
            SudokuError::InvalidPlacement => {
                proof { reveal_strlit("invalid placement"); }
                "invalid placement"
            },
            SudokuError::Contradiction => {
                proof { reveal_strlit("contradiction: a cell has no candidates left"); }
                "contradiction: a cell has no candidates left"
            },
        }
    }
}

} // verus!

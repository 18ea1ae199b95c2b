//! Highscore records kept by interactive front ends.
use vstd::prelude::*;

verus! {

/// One finished game: how long it took, the seed or the finished grid that
/// reproduces it, the clue count and when it was played.
#[derive(Clone, Debug)]
pub struct HighscoreEntry {
    pub time_ms: u128,
    pub seed: Option<String>,
    pub clues: Option<usize>,
    pub date_utc: String,
    pub solution_sdk: Option<String>,
}

} // verus!

//! The selectors a command line offers, and how they map onto the engine's
//! sizes and levels.
use vstd::prelude::*;
use crate::board::{BoardSize, Difficulty};

verus! {

/// A difficulty as a command line names it.
#[derive(Debug, Clone, Copy, PartialEq, Eq, Structural)]
pub enum CliDifficulty {
    Beginner,
    Easy,
    Medium,
    Hard,
    Extreme,
    Impossible,
}

/// A board size as a command line names it.
#[derive(Debug, Clone, Copy, PartialEq, Eq, Structural)]
pub enum CliBoardSize {
    Four,
    Nine,
    Sixteen,
}

impl From<CliDifficulty> for Difficulty {
    fn from(value: CliDifficulty) -> (d: Difficulty) {
        match value {
            CliDifficulty::Beginner => Difficulty::Beginner,
            CliDifficulty::Easy => Difficulty::Easy,
            CliDifficulty::Medium => Difficulty::Medium,
            CliDifficulty::Hard => Difficulty::Hard,
            CliDifficulty::Extreme => Difficulty::Extreme,
            CliDifficulty::Impossible => Difficulty::Impossible,
        }
    }
}

impl vstd::std_specs::convert::FromSpecImpl<CliDifficulty> for Difficulty {
    open spec fn obeys_from_spec() -> bool {
        true
    }

    open spec fn from_spec(v: CliDifficulty) -> Difficulty {
        match v {
            CliDifficulty::Beginner => Difficulty::Beginner,
            CliDifficulty::Easy => Difficulty::Easy,
            CliDifficulty::Medium => Difficulty::Medium,
            CliDifficulty::Hard => Difficulty::Hard,
            CliDifficulty::Extreme => Difficulty::Extreme,
            CliDifficulty::Impossible => Difficulty::Impossible,
        }
    }
}

impl From<CliBoardSize> for BoardSize {
    fn from(value: CliBoardSize) -> (b: BoardSize) {
        match value {
            CliBoardSize::Four => BoardSize::Four,
            CliBoardSize::Nine => BoardSize::Nine,
            CliBoardSize::Sixteen => BoardSize::Sixteen,
        }
    }
}

impl vstd::std_specs::convert::FromSpecImpl<CliBoardSize> for BoardSize {
    open spec fn obeys_from_spec() -> bool {
        true
    }

    open spec fn from_spec(v: CliBoardSize) -> BoardSize {
        match v {
            CliBoardSize::Four => BoardSize::Four,
            CliBoardSize::Nine => BoardSize::Nine,
            CliBoardSize::Sixteen => BoardSize::Sixteen,
        }
    }
}

} // verus!

//! Board sizes, difficulty levels and the engine's error kinds.
use vstd::prelude::*;

verus! {

/// What can go wrong when parsing a selector or editing a puzzle.
#[derive(Debug, Clone, PartialEq, Eq)]
pub enum Error {
    /// The value is outside `1..=N`.
    InvalidNumber,
    /// The row or the column is outside `0..N`.
    InvalidCoordinate,
    /// The cell was filled when the puzzle was generated and cannot change.
    StartingNumbers,
    /// The text names no difficulty; it is carried back unchanged.
    UnkownDifficulty(String),
    /// The text names no board size; it is carried back unchanged.
    UknownBoardSize(String),
}

/// How hard a puzzle is: the share of cells that are blanked out.
#[derive(Debug, Clone, Copy, Default, PartialEq, Eq, Structural, PartialOrd, Ord, Hash)]
pub enum Difficulty {
    Beginner,
    Easy,
    #[default]
    Medium,
    Hard,
    Extreme,
    Impossible,
}

/// The edge length of a board; always a perfect square.
#[derive(Debug, Clone, Copy, Default, PartialEq, Eq, Structural, PartialOrd, Ord, Hash)]
pub enum BoardSize {
    Four,
    #[default]
    Nine,
    Sixteen,
}

impl Difficulty {
    /// Percentage of the cells that a puzzle of this level leaves blank.
    pub open spec fn percent(self) -> nat {
        match self {
            Difficulty::Beginner => 15,
            Difficulty::Easy => 30,
            Difficulty::Medium => 45,
            Difficulty::Hard => 57,
            Difficulty::Extreme => 66,
            Difficulty::Impossible => 79,
        }
    }

    /// The lowercase word that names this level.
    pub open spec fn token(self) -> Seq<char> {
        match self {
            Difficulty::Beginner => "beginner"@,
            Difficulty::Easy => "easy"@,
            Difficulty::Medium => "medium"@,
            Difficulty::Hard => "hard"@,
            Difficulty::Extreme => "extreme"@,
            Difficulty::Impossible => "impossible"@,
        }
    }

    /// Percentage of the cells that a puzzle of this level leaves blank.
    pub fn percentage(self) -> (p: usize)
        ensures
            p == self.percent(),
    {
        match self {
            Difficulty::Beginner => 15,
            Difficulty::Easy => 30,
            Difficulty::Medium => 45,
            Difficulty::Hard => 57,
            Difficulty::Extreme => 66,
            Difficulty::Impossible => 79,
        }
    }
}

impl BoardSize {
    /// Number of cells along one edge of the board.
    pub open spec fn edge(self) -> nat {
        match self {
            BoardSize::Four => 4,
            BoardSize::Nine => 9,
            BoardSize::Sixteen => 16,
        }
    }

    /// Number of cells along one edge of a box: the square root of `edge`.
    pub open spec fn box_edge(self) -> nat {
        match self {
            BoardSize::Four => 2,
            BoardSize::Nine => 3,
            BoardSize::Sixteen => 4,
        }
    }

    /// The decimal text that names this size.
    pub open spec fn token(self) -> Seq<char> {
        match self {
            BoardSize::Four => "4"@,
            BoardSize::Nine => "9"@,
            BoardSize::Sixteen => "16"@,
        }
    }

    /// Number of cells along one edge of the board.
    pub fn size(self) -> (n: usize)
        ensures
            n == self.edge(),
            n == self.box_edge() * self.box_edge(),
    {
        match self {
            BoardSize::Four => 4,
            BoardSize::Nine => 9,
            BoardSize::Sixteen => 16,
        }
    }

    /// Number of cells along one edge of a box.
    pub fn size_sqrt(self) -> (b: usize)
        ensures
            b == self.box_edge(),
            b * b == self.edge(),
    {
        match self {
            BoardSize::Four => 2,
            BoardSize::Nine => 3,
            BoardSize::Sixteen => 4,
        }
    }
}

/// Whether two texts hold the same characters.
fn same_text(a: &str, b: &str) -> (r: bool)
    ensures
        r == (a@ == b@),
{
    a.to_owned() == b.to_owned()
}

impl std::str::FromStr for Difficulty {
    type Err = Error;

    /// Reads a level from its lowercase name; any other text is an error
    /// that carries the text back.
    fn from_str(s: &str) -> (r: Result<Difficulty, Error>)
        ensures
            match r {
                Ok(d) => d.token() == s@,
                Err(e) => {
                    &&& e matches Error::UnkownDifficulty(t) && t@ == s@
                    &&& forall|d: Difficulty| #[trigger] d.token() != s@
                },
            },
    {
        if same_text(s, "beginner") {
            Ok(Difficulty::Beginner)
        } else if same_text(s, "easy") {
            Ok(Difficulty::Easy)
        } else if same_text(s, "medium") {
            Ok(Difficulty::Medium)
        } else if same_text(s, "hard") {
            Ok(Difficulty::Hard)
        } else if same_text(s, "extreme") {
            Ok(Difficulty::Extreme)
        } else if same_text(s, "impossible") {
            Ok(Difficulty::Impossible)
        } else {
            Err(Error::UnkownDifficulty(s.to_owned()))
        }
    }
}

impl std::str::FromStr for BoardSize {
    type Err = Error;

    /// Reads a size from its decimal text; any other text is an error that
    /// carries the text back.
    fn from_str(s: &str) -> (r: Result<BoardSize, Error>)
        ensures
            match r {
                Ok(b) => b.token() == s@,
                Err(e) => {
                    &&& e matches Error::UknownBoardSize(t) && t@ == s@
                    &&& forall|b: BoardSize| #[trigger] b.token() != s@
                },
            },
    {
        if same_text(s, "4") {
            Ok(BoardSize::Four)
        } else if same_text(s, "9") {
            Ok(BoardSize::Nine)
        } else if same_text(s, "16") {
            Ok(BoardSize::Sixteen)
        } else {
            Err(Error::UknownBoardSize(s.to_owned()))
        }
    }
}

/// Every level has its own name, so a name read back gives the level it
/// came from.
pub proof fn difficulty_tokens_are_distinct(a: Difficulty, b: Difficulty)
    ensures
        a.token() == b.token() <==> a == b,
{
    reveal_strlit("beginner");
    reveal_strlit("easy");
    reveal_strlit("medium");
    reveal_strlit("hard");
    reveal_strlit("extreme");
    reveal_strlit("impossible");
    if a.token() == b.token() && a != b {
        assert(a.token().len() != b.token().len() || a.token()[0] != b.token()[0]
            || a.token()[1] != b.token()[1]);
    }
}

} // verus!

//! A puzzle in play: its grid, its difficulty, and the starting cells that
//! the player may not change.
use vstd::prelude::*;
use crate::board::{BoardSize, Difficulty, Error};
use crate::grid::{cells, consistent, in_grid, is_isqrt, is_perfect_square, is_square, isqrt, lemma_isqrt_unique, placeable, solved, verify};
use crate::removal::{apply_difficulty, blanks, first_cells, is_cell_order, removal_count, removal_order};
use crate::solver::{generate, values_in_range, with_cell};

verus! {

/// The cells that were filled when a puzzle was made. Only this module can
/// build one, from a grid, so the set cannot be edited by a player.
#[derive(Debug, Clone)]
pub struct StartingCells {
    mask: Vec<Vec<bool>>,
}

/// One puzzle: the grid the player edits, the difficulty it was made at, and
/// which cells were filled when it was made.
#[derive(Debug, Clone)]
pub struct Sudoku {
    pub difficulty: Difficulty,
    pub starting: StartingCells,
    pub play: Vec<Vec<u8>>,
}

/// The edge lengths a board may have.
pub open spec fn admissible(n: int) -> bool {
    n == 4 || n == 9 || n == 16
}

/// What `add_number` answers for a value and a position on a board of edge
/// `n` whose starting cells are `fixed`.
pub open spec fn add_outcome(n: int, fixed: Set<(int, int)>, num: int, row: int, column: int) -> Result<(), Error> {
    if num < 1 || num > n {
        Err(Error::InvalidNumber)
    } else if row >= n || column >= n {
        Err(Error::InvalidCoordinate)
    } else if fixed.contains((row, column)) {
        Err(Error::StartingNumbers)
    } else {
        Ok(())
    }
}

/// What `remove_number` answers for a position on a board of edge `n` whose
/// starting cells are `fixed`.
pub open spec fn remove_outcome(n: int, fixed: Set<(int, int)>, row: int, column: int) -> Result<(), Error> {
    if row >= n || column >= n {
        Err(Error::InvalidCoordinate)
    } else if fixed.contains((row, column)) {
        Err(Error::StartingNumbers)
    } else {
        Ok(())
    }
}

/// The filled cells of a grid, as `(row, column)` pairs.
pub open spec fn filled_cells(g: Seq<Seq<u8>>) -> Set<(int, int)> {
    Set::new(|p: (int, int)| in_grid(g.len() as int, p.0, p.1) && g[p.0][p.1] != 0)
}

/// `p` is `s` with some cells blanked.
pub open spec fn blanked_from(p: Seq<Seq<u8>>, s: Seq<Seq<u8>>) -> bool {
    &&& p.len() == s.len()
    &&& forall|r: int, c: int| in_grid(s.len() as int, r, c) ==> #[trigger] p[r][c] == 0 || p[r][c] == s[r][c]
}

/// Blanking cells of a grid without clashes leaves it without clashes.
pub proof fn lemma_blanking_keeps_consistent(p: Seq<Seq<u8>>, s: Seq<Seq<u8>>, b: int)
    requires
        consistent(s, b),
        blanked_from(p, s),
    ensures
        consistent(p, b),
{
    assert forall|r: int, c: int| in_grid(p.len() as int, r, c) implies placeable(p, b, r, c, #[trigger] p[r][c]) by {
        if p[r][c] != 0 {
            assert(placeable(s, b, r, c, s[r][c]));
            assert forall|r2: int, c2: int|
                in_grid(p.len() as int, r2, c2) && (r2 != r || c2 != c) && crate::grid::same_unit(b, r, c, r2, c2)
                    implies #[trigger] p[r2][c2] != p[r][c] by {
                assert(p[r2][c2] == 0 || p[r2][c2] == s[r2][c2]);
            }
        }
    }
}

/// The boards that a `BoardSize` names have a box edge that tiles them.
proof fn lemma_admissible_box(n: int)
    requires
        admissible(n),
    ensures
        is_perfect_square(n),
        n == 4 ==> isqrt(n) == 2,
        n == 9 ==> isqrt(n) == 3,
        n == 16 ==> isqrt(n) == 4,
{
    let b = if n == 4 {
        2int
    } else if n == 9 {
        3int
    } else {
        4int
    };
    assert(is_isqrt(n, b));
    lemma_isqrt_unique(n, b, isqrt(n));
}

/// Marks the filled cells of a grid.
fn filled_mask(sudoku: &Vec<Vec<u8>>) -> (mask: Vec<Vec<bool>>)
    requires
        is_square(cells(sudoku)),
    ensures
        mask.len() == sudoku.len(),
        forall|r: int| 0 <= r < mask.len() ==> #[trigger] mask@[r].len() == sudoku.len(),
        forall|r: int, c: int| in_grid(sudoku.len() as int, r, c) ==> #[trigger] mask@[r]@[c] == (cells(sudoku)[r][c] != 0),
{
    let ghost g = cells(sudoku);
    let size = sudoku.len();
    let mut mask: Vec<Vec<bool>> = Vec::new();
    let mut row: usize = 0;
    while row < size
        invariant
            g == cells(sudoku),
            is_square(g),
            size == g.len(),
            row <= size,
            mask.len() == row,
            forall|r: int| 0 <= r < row ==> #[trigger] mask@[r].len() == size,
            forall|r: int, c: int| 0 <= r < row && 0 <= c < size ==> #[trigger] mask@[r]@[c] == (g[r][c] != 0),
        decreases size - row,
    {
        let mut line: Vec<bool> = Vec::new();
        let mut column: usize = 0;
        assert(g[row as int].len() == size);
        while column < size
            invariant
                g == cells(sudoku),
                is_square(g),
                size == g.len(),
                row < size,
                column <= size,
                g[row as int].len() == size,
                line.len() == column,
                forall|c: int| 0 <= c < column ==> #[trigger] line@[c] == (g[row as int][c] != 0),
            decreases size - column,
        {
            line.push(sudoku[row][column] != 0);
            column = column + 1;
        }
        mask.push(line);
        row = row + 1;
    }
    mask
}

impl View for StartingCells {
    type V = Set<(int, int)>;

    /// The starting cells as `(row, column)` pairs; all of them lie on the board.
    closed spec fn view(&self) -> Set<(int, int)> {
        Set::new(|p: (int, int)| in_grid(self.mask.len() as int, p.0, p.1) && self.mask@[p.0]@[p.1])
    }
}

impl StartingCells {
    /// The edge of the board the cells were taken from.
    pub closed spec fn edge(&self) -> int {
        self.mask.len() as int
    }

    /// Every row of the mask covers the board.
    pub closed spec fn wf(&self) -> bool {
        forall|r: int| 0 <= r < self.mask.len() ==> #[trigger] self.mask@[r].len() == self.mask.len()
    }

    /// Every starting cell lies on the board.
    pub proof fn lemma_on_board(&self)
        ensures
            forall|p: (int, int)| #[trigger] self@.contains(p) ==> in_grid(self.edge(), p.0, p.1),
    {
    }

    /// The filled cells of a grid.
    fn from_grid(sudoku: &Vec<Vec<u8>>) -> (cells_set: StartingCells)
        requires
            is_square(cells(sudoku)),
        ensures
            cells_set.wf(),
            cells_set.edge() == sudoku.len(),
            forall|p: (int, int)| #[trigger] cells_set@.contains(p) ==> in_grid(sudoku.len() as int, p.0, p.1),
            forall|r: int, c: int|
                in_grid(sudoku.len() as int, r, c) ==> (cells_set@.contains((r, c)) <==> #[trigger] cells(
                    sudoku,
                )[r][c] != 0),
    {
        StartingCells { mask: filled_mask(sudoku) }
    }

    /// Whether `(row, column)` is a starting cell.
    pub fn contains(&self, row: usize, column: usize) -> (r: bool)
        requires
            self.wf(),
        ensures
            r == self@.contains((row as int, column as int)),
    {
        if row < self.mask.len() && column < self.mask.len() {
            assert(self.mask@[row as int].len() == self.mask.len());
            self.mask[row][column]
        } else {
            false
        }
    }
}

impl Sudoku {
    /// The cells filled when the puzzle was made, as `(row, column)` pairs.
    pub open spec fn fixed(&self) -> Set<(int, int)> {
        self.starting@
    }

    /// The play grid, row by row.
    pub open spec fn grid(&self) -> Seq<Seq<u8>> {
        cells(&self.play)
    }

    /// The difficulty the puzzle was made at.
    pub open spec fn level(&self) -> Difficulty {
        self.difficulty
    }

    /// The edge length of the board.
    pub open spec fn edge(&self) -> int {
        self.play.len() as int
    }

    /// The play grid is a square board of an admissible size whose values are
    /// in `0..=n`, and every starting cell lies on it and is still filled.
    /// (Row `r` of `grid()` is the vector `play[r]`.)
    pub open spec fn wf(&self) -> bool {
        &&& admissible(self.edge())
        &&& is_square(self.grid())
        &&& self.grid().len() == self.edge()
        &&& forall|r: int| 0 <= r < self.edge() ==> (#[trigger] self.play@[r])@ == self.grid()[r]
        &&& values_in_range(self.grid())
        &&& self.starting.wf()
        &&& self.starting.edge() == self.edge()
        &&& forall|p: (int, int)|
            #[trigger] self.fixed().contains(p) ==> in_grid(self.edge(), p.0, p.1) && self.grid()[p.0][p.1] != 0
    }

    /// Makes a puzzle from a solved grid by blanking the cells that the first
    /// entries of `order` name (as many as the difficulty asks for). Every cell
    /// left filled becomes a starting cell.
    pub fn generate_with_order(size: BoardSize, difficulty: Difficulty, order: &Vec<usize>) -> (sudoku: Self)
        requires
            is_cell_order(order@, size.edge() as int),
        ensures
            sudoku.wf(),
            sudoku.level() == difficulty,
            sudoku.edge() == size.edge(),
            is_square(sudoku.grid()),
            sudoku.grid().len() == sudoku.edge(),
            forall|p: (int, int)| #[trigger] sudoku.fixed().contains(p) ==> in_grid(sudoku.edge(), p.0, p.1),
            sudoku.fixed() == filled_cells(sudoku.grid()),
            exists|s: Seq<Seq<u8>>|
                solved(s, size.box_edge() as int) && forall|r: int, c: int|
                    in_grid(size.edge() as int, r, c) ==> #[trigger] sudoku.grid()[r][c] == if first_cells(
                        order@,
                        size.edge() as int,
                        removal_count(size.edge() as int, difficulty),
                    ).contains((r, c)) {
                        0
                    } else {
                        s[r][c]
                    },
            blanks(sudoku.grid()).len() == removal_count(size.edge() as int, difficulty),
            forall|r: int, c: int|
                in_grid(size.edge() as int, r, c) ==> (sudoku.fixed().contains((r, c)) <==> #[trigger] sudoku.grid()[r][c] != 0),
            consistent(sudoku.grid(), size.box_edge() as int),
    {
        let mut play = generate(size);
        let ghost s = cells(&play);
        apply_difficulty(&mut play, difficulty, order);
        let starting = StartingCells::from_grid(&play);
        let sudoku = Sudoku { difficulty, starting, play };
        proof {
            let p = sudoku.grid();
            let n = size.edge() as int;
            assert(blanked_from(p, s));
            lemma_blanking_keeps_consistent(p, s, size.box_edge() as int);
            assert(sudoku.fixed() =~= filled_cells(p));
            assert forall|r: int, c: int| in_grid(n, r, c) implies #[trigger] p[r][c] <= p.len() by {
                assert(p[r][c] == 0 || p[r][c] == s[r][c]);
            }
        }
        sudoku
    }

    /// Generates a puzzle of the given size and difficulty: a solved grid with
    /// `floor(n * n * percentage / 100)` cells blanked, chosen in the order in
    /// which a hash set walks the cells.
    pub fn generate(size: BoardSize, difficulty: Difficulty) -> (sudoku: Self)
        ensures
            sudoku.wf(),
            sudoku.level() == difficulty,
            sudoku.edge() == size.edge(),
            is_square(sudoku.grid()),
            sudoku.grid().len() == sudoku.edge(),
            forall|p: (int, int)| #[trigger] sudoku.fixed().contains(p) ==> in_grid(sudoku.edge(), p.0, p.1),
            sudoku.fixed() == filled_cells(sudoku.grid()),
            exists|s: Seq<Seq<u8>>| solved(s, size.box_edge() as int) && blanked_from(sudoku.grid(), s),
            blanks(sudoku.grid()).len() == removal_count(size.edge() as int, difficulty),
            forall|r: int, c: int|
                in_grid(size.edge() as int, r, c) ==> (sudoku.fixed().contains((r, c)) <==> #[trigger] sudoku.grid()[r][c] != 0),
            consistent(sudoku.grid(), isqrt(size.edge() as int)),
    {
        let n = size.size();
        assert(n * n <= 256) by (nonlinear_arith)
            requires
                n <= 16,
        ;
        let order = removal_order(n);
        let sudoku = Sudoku::generate_with_order(size, difficulty, &order);
        proof {
            lemma_admissible_box(size.edge() as int);
            let s = choose|s: Seq<Seq<u8>>|
                solved(s, size.box_edge() as int) && forall|r: int, c: int|
                    in_grid(size.edge() as int, r, c) ==> #[trigger] sudoku.grid()[r][c] == if first_cells(
                        order@,
                        size.edge() as int,
                        removal_count(size.edge() as int, difficulty),
                    ).contains((r, c)) {
                        0
                    } else {
                        s[r][c]
                    };
            assert(blanked_from(sudoku.grid(), s));
        }
        sudoku
    }

    /// Whether the play grid keeps the rule everywhere: no row, column or box
    /// holds a value twice. Blanks never clash.
    pub fn verify(&self) -> (ok: bool)
        requires
            self.wf(),
        ensures
            ok == consistent(self.grid(), isqrt(self.edge())),
    {
        proof {
            lemma_admissible_box(self.edge());
        }
        verify(&self.play)
    }

    /// Writes `num` at `(row, column)` (counted from 0). Fails, changing
    /// nothing, when `num` is outside `1..=n`, then when the position is off
    /// the board, then when the cell is a starting cell. Does not check the
    /// rule: call `verify` for that.
    pub fn add_number(&mut self, num: u8, row: usize, column: usize) -> (r: Result<(), Error>)
        requires
            old(self).wf(),
        ensures
            final(self).wf(),
            final(self).level() == old(self).level(),
            final(self).fixed() == old(self).fixed(),
            final(self).edge() == old(self).edge(),
            is_square(final(self).grid()),
            final(self).grid().len() == final(self).edge(),
            forall|p: (int, int)| #[trigger] final(self).fixed().contains(p) ==> in_grid(final(self).edge(), p.0, p.1),
            r == add_outcome(old(self).edge(), old(self).fixed(), num as int, row as int, column as int),
            (num == 0 || num > old(self).edge()) ==> r == Err::<(), Error>(Error::InvalidNumber),
            1 <= num <= old(self).edge() && (row >= old(self).edge() || column >= old(self).edge()) ==> r == Err::<
                (),
                Error,
            >(Error::InvalidCoordinate),
            1 <= num <= old(self).edge() && old(self).fixed().contains((row as int, column as int)) ==> r == Err::<
                (),
                Error,
            >(Error::StartingNumbers),
            r is Ok ==> final(self).grid() == with_cell(old(self).grid(), row as int, column as int, num),
            r is Ok ==> final(self).grid()[row as int][column as int] == num,
            r is Ok ==> forall|a: int, b: int|
                in_grid(old(self).edge(), a, b) && (a != row || b != column) ==> #[trigger] final(self).grid()[a][b]
                    == old(self).grid()[a][b],
            forall|p: (int, int)|
                #[trigger] old(self).fixed().contains(p) ==> final(self).grid()[p.0][p.1] == old(self).grid()[p.0][p.1],
            r is Err ==> final(self).grid() == old(self).grid(),
    {
        let size = self.play.len();
        if num == 0 || num as usize > size {
            Err(Error::InvalidNumber)
        } else if row >= size || column >= size {
            Err(Error::InvalidCoordinate)
        } else if self.is_starting(row, column) {
            Err(Error::StartingNumbers)
        } else {
            let ghost before = *self;
            assert(cells(&self.play)[row as int].len() == size);
            self.play[row][column] = num;
            proof {
                assert(cells(&self.play) =~~= with_cell(cells(&before.play), row as int, column as int, num));
                assert(self.fixed() =~= before.fixed());
            }
            Ok(())
        }
    }

    /// Blanks `(row, column)` (counted from 0). Fails, changing nothing, when
    /// the position is off the board, then when the cell is a starting cell.
    pub fn remove_number(&mut self, row: usize, column: usize) -> (r: Result<(), Error>)
        requires
            old(self).wf(),
        ensures
            final(self).wf(),
            final(self).level() == old(self).level(),
            final(self).fixed() == old(self).fixed(),
            final(self).edge() == old(self).edge(),
            is_square(final(self).grid()),
            final(self).grid().len() == final(self).edge(),
            forall|p: (int, int)| #[trigger] final(self).fixed().contains(p) ==> in_grid(final(self).edge(), p.0, p.1),
            r == remove_outcome(old(self).edge(), old(self).fixed(), row as int, column as int),
            row >= old(self).edge() || column >= old(self).edge() ==> r == Err::<(), Error>(
                Error::InvalidCoordinate,
            ),
            old(self).fixed().contains((row as int, column as int)) ==> r == Err::<(), Error>(
                Error::StartingNumbers,
            ),
            r is Ok ==> final(self).grid() == with_cell(old(self).grid(), row as int, column as int, 0),
            r is Ok ==> final(self).grid()[row as int][column as int] == 0,
            r is Ok ==> forall|a: int, b: int|
                in_grid(old(self).edge(), a, b) && (a != row || b != column) ==> #[trigger] final(self).grid()[a][b]
                    == old(self).grid()[a][b],
            forall|p: (int, int)|
                #[trigger] old(self).fixed().contains(p) ==> final(self).grid()[p.0][p.1] == old(self).grid()[p.0][p.1],
            r is Err ==> final(self).grid() == old(self).grid(),
    {
        let size = self.play.len();
        if row >= size || column >= size {
            Err(Error::InvalidCoordinate)
        } else if self.is_starting(row, column) {
            Err(Error::StartingNumbers)
        } else {
            let ghost before = *self;
            assert(cells(&self.play)[row as int].len() == size);
            self.play[row][column] = 0;
            proof {
                assert(cells(&self.play) =~~= with_cell(cells(&before.play), row as int, column as int, 0));
                assert(self.fixed() =~= before.fixed());
            }
            Ok(())
        }
    }

    /// Whether `(row, column)` is a starting cell.
    pub fn is_starting(&self, row: usize, column: usize) -> (r: bool)
        requires
            self.wf(),
        ensures
            r == self.fixed().contains((row as int, column as int)),
    {
        self.starting.contains(row, column)
    }
}

/// Adding a value to a cell that may change and then removing it leaves the
/// cell blank and every other cell as it was.
pub proof fn lemma_add_then_remove(
    g: Seq<Seq<u8>>,
    fixed: Set<(int, int)>,
    num: int,
    row: int,
    column: int,
)
    requires
        is_square(g),
        add_outcome(g.len() as int, fixed, num, row, column) is Ok,
        0 <= row,
        0 <= column,
    ensures
        remove_outcome(g.len() as int, fixed, row, column) is Ok,
        with_cell(with_cell(g, row, column, num as u8), row, column, 0) == with_cell(g, row, column, 0),
        with_cell(with_cell(g, row, column, num as u8), row, column, 0)[row][column] == 0,
        forall|r: int, c: int|
            in_grid(g.len() as int, r, c) && (r != row || c != column) ==> #[trigger] with_cell(
                with_cell(g, row, column, num as u8),
                row,
                column,
                0,
            )[r][c] == g[r][c],
{
    let once = with_cell(g, row, column, num as u8);
    let twice = with_cell(once, row, column, 0);
    assert(g[row].len() == g.len());
    assert(twice =~~= with_cell(g, row, column, 0));
}

} // verus!

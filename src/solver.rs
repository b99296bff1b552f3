//! The backtracking solver, and the fact that every empty board has a solution.
use vstd::prelude::*;
use vstd::arithmetic::div_mod::*;
use crate::board::BoardSize;
use crate::grid::{
    box_edge_of, cells, consistent, in_grid, is_isqrt, is_perfect_square, is_square, is_valid, isqrt,
    lemma_band, lemma_isqrt_unique, placeable, same_unit, solved, verify,
};

verus! {

/// `s` keeps every filled cell of `g`.
pub open spec fn extends(g: Seq<Seq<u8>>, s: Seq<Seq<u8>>) -> bool {
    &&& s.len() == g.len()
    &&& forall|r: int, c: int|
        in_grid(g.len() as int, r, c) && #[trigger] g[r][c] != 0 ==> s[r][c] == g[r][c]
}

/// Some solved grid with boxes of edge `b` keeps every filled cell of `g`.
pub open spec fn solvable(g: Seq<Seq<u8>>, b: int) -> bool {
    exists|s: Seq<Seq<u8>>| solved(s, b) && #[trigger] extends(g, s)
}

/// Every cell before `(row, column)` in row-major order is filled.
pub open spec fn filled_before(g: Seq<Seq<u8>>, row: int, column: int) -> bool {
    forall|r: int, c: int|
        in_grid(g.len() as int, r, c) && (r < row || (r == row && c < column)) ==> #[trigger] g[r][c] != 0
}

/// No cell holds more than the edge length.
pub open spec fn values_in_range(g: Seq<Seq<u8>>) -> bool {
    forall|r: int, c: int| in_grid(g.len() as int, r, c) ==> #[trigger] g[r][c] <= g.len()
}

/// The grid with `v` at `(r, c)`.
pub open spec fn with_cell(g: Seq<Seq<u8>>, r: int, c: int, v: u8) -> Seq<Seq<u8>> {
    g.update(r, g[r].update(c, v))
}

/// The grid of `n` rows of `n` blanks.
pub open spec fn blank_grid(n: nat) -> Seq<Seq<u8>> {
    Seq::new(n, |r: int| Seq::new(n, |c: int| 0u8))
}

/// Where a filled cell of `g` clashes with another, no solution keeps both.
proof fn lemma_solvable_needs_consistent(g: Seq<Seq<u8>>, b: int)
    requires
        solvable(g, b),
    ensures
        consistent(g, b),
        values_in_range(g),
{
    let s = choose|s: Seq<Seq<u8>>| solved(s, b) && #[trigger] extends(g, s);
    assert forall|r: int, c: int| in_grid(g.len() as int, r, c) implies placeable(
        g,
        b,
        r,
        c,
        #[trigger] g[r][c],
    ) by {
        if g[r][c] != 0 {
            assert(placeable(s, b, r, c, s[r][c]));
            assert forall|r2: int, c2: int|
                in_grid(g.len() as int, r2, c2) && (r2 != r || c2 != c) && same_unit(b, r, c, r2, c2)
                    implies #[trigger] g[r2][c2] != g[r][c] by {
                if g[r2][c2] != 0 {
                    assert(s[r2][c2] == g[r2][c2]);
                }
            }
        }
    }
    assert forall|r: int, c: int| in_grid(g.len() as int, r, c) implies #[trigger] g[r][c] <= g.len() by {
        if g[r][c] != 0 {
            assert(s[r][c] == g[r][c]);
        }
    }
}

/// Placing a value that `placeable` allows keeps the grid free of clashes.
proof fn lemma_place_keeps_consistent(g: Seq<Seq<u8>>, b: int, r: int, c: int, v: u8)
    requires
        is_square(g),
        in_grid(g.len() as int, r, c),
        g[r][c] == 0,
        consistent(g, b),
        placeable(g, b, r, c, v),
    ensures
        consistent(with_cell(g, r, c, v), b),
        is_square(with_cell(g, r, c, v)),
{
    let h = with_cell(g, r, c, v);
    assert forall|r1: int, c1: int| in_grid(h.len() as int, r1, c1) implies placeable(
        h,
        b,
        r1,
        c1,
        #[trigger] h[r1][c1],
    ) by {
        if r1 == r && c1 == c {
            assert forall|r2: int, c2: int|
                in_grid(h.len() as int, r2, c2) && (r2 != r1 || c2 != c1) && same_unit(b, r1, c1, r2, c2)
                    implies #[trigger] h[r2][c2] != h[r1][c1] || h[r1][c1] == 0 by {
                assert(h[r2][c2] == g[r2][c2]);
            }
        } else if h[r1][c1] != 0 {
            assert(h[r1][c1] == g[r1][c1]);
            assert(placeable(g, b, r1, c1, g[r1][c1]));
            assert forall|r2: int, c2: int|
                in_grid(h.len() as int, r2, c2) && (r2 != r1 || c2 != c1) && same_unit(b, r1, c1, r2, c2)
                    implies #[trigger] h[r2][c2] != h[r1][c1] by {
                if r2 == r && c2 == c {
                    // (r1, c1) shares a unit with (r, c), where `v` was free to go.
                    assert(same_unit(b, r, c, r1, c1));
                    assert(g[r1][c1] != v || v == 0);
                } else {
                    assert(h[r2][c2] == g[r2][c2]);
                }
            }
        }
    }
}

/// Finds the first blank at or after `(row, column)` in row-major order.
fn find_empty(sudoku: &Vec<Vec<u8>>, row: usize, column: usize) -> (found: Option<(usize, usize)>)
    requires
        is_square(cells(sudoku)),
        row <= sudoku.len(),
        column <= sudoku.len(),
        filled_before(cells(sudoku), row as int, column as int),
    ensures
        match found {
            Some((r, c)) => {
                &&& in_grid(sudoku.len() as int, r as int, c as int)
                &&& cells(sudoku)[r as int][c as int] == 0
                &&& filled_before(cells(sudoku), r as int, c as int)
                &&& (row < r || (row == r && column <= c))
            },
            None => filled_before(cells(sudoku), sudoku.len() as int, 0),
        },
{
    let ghost g = cells(sudoku);
    let size = sudoku.len();
    let mut r = row;
    let mut c = column;
    while r < size
        invariant
            g == cells(sudoku),
            is_square(g),
            size == g.len(),
            row <= r <= size,
            c <= size,
            r == row ==> column <= c,
            filled_before(g, r as int, c as int),
        decreases size - r, size - c,
    {
        if c < size {
            assert(g[r as int].len() == size);
            if sudoku[r][c] == 0 {
                return Some((r, c));
            }
            c = c + 1;
        } else {
            r = r + 1;
            c = 0;
        }
    }
    None
}

/// Fills the blanks at or after `(row, column)` by trying each value in turn
/// and undoing it when the rest cannot be finished. Returns false, leaving the
/// grid as it was, exactly when no solution keeps the filled cells.
fn solve_from(sudoku: &mut Vec<Vec<u8>>, size: usize, size_sqrt: usize, row: usize, column: usize) -> (done: bool)
    requires
        is_square(cells(old(sudoku))),
        size == old(sudoku).len(),
        size <= 255,
        size_sqrt > 0,
        size_sqrt * size_sqrt == size,
        row <= size,
        column <= size,
        filled_before(cells(old(sudoku)), row as int, column as int),
        consistent(cells(old(sudoku)), size_sqrt as int),
        values_in_range(cells(old(sudoku))),
    ensures
        is_square(cells(final(sudoku))),
        final(sudoku).len() == size,
        done ==> solved(cells(final(sudoku)), size_sqrt as int) && extends(
            cells(old(sudoku)),
            cells(final(sudoku)),
        ),
        !done ==> cells(final(sudoku)) == cells(old(sudoku)) && !solvable(
            cells(old(sudoku)),
            size_sqrt as int,
        ),
    decreases size - row, size + 1 - column,
{
    let ghost g = cells(sudoku);
    let ghost b = size_sqrt as int;
    match find_empty(sudoku, row, column) {
        None => {
            assert(extends(g, g));
            true
        },
        Some((r, c)) => {
            let mut v: usize = 1;
            while v <= size
                invariant
                    cells(sudoku) == g,
                    g == cells(old(sudoku)),
                    is_square(g),
                    size == g.len(),
                    size <= 255,
                    size_sqrt > 0,
                    size_sqrt * size_sqrt == size,
                    b == size_sqrt,
                    in_grid(size as int, r as int, c as int),
                    g[r as int][c as int] == 0,
                    filled_before(g, r as int, c as int),
                    row < r || (row == r && column <= c),
                    consistent(g, b),
                    values_in_range(g),
                    1 <= v <= size + 1,
                    forall|s: Seq<Seq<u8>>|
                        solved(s, b) && #[trigger] extends(g, s) ==> s[r as int][c as int] >= v,
                decreases size + 1 - v,
            {
                let ghost h = with_cell(g, r as int, c as int, v as u8);
                if is_valid(sudoku, size_sqrt, r, c, v as u8) {
                    sudoku[r][c] = v as u8;
                    assert(cells(sudoku) =~~= h);
                    proof {
                        lemma_place_keeps_consistent(g, b, r as int, c as int, v as u8);
                        assert forall|r1: int, c1: int|
                            in_grid(h.len() as int, r1, c1) && (r1 < r || (r1 == r && c1 < c + 1))
                                implies #[trigger] h[r1][c1] != 0 by {
                            if r1 != r || c1 != c {
                                assert(h[r1][c1] == g[r1][c1]);
                            }
                        }
                        assert forall|r1: int, c1: int| in_grid(h.len() as int, r1, c1) implies #[trigger] h[r1][c1]
                            <= h.len() by {
                            if r1 != r || c1 != c {
                                assert(h[r1][c1] == g[r1][c1]);
                            }
                        }
                    }
                    if solve_from(sudoku, size, size_sqrt, r, c + 1) {
                        proof {
                            let f = cells(sudoku);
                            assert forall|r1: int, c1: int|
                                in_grid(g.len() as int, r1, c1) && #[trigger] g[r1][c1] != 0 implies f[r1][c1]
                                == g[r1][c1] by {
                                assert(h[r1][c1] == g[r1][c1]);
                            }
                        }
                        return true;
                    }
                    assert(g[r as int].len() == size);
                    assert(h[r as int].len() == size);
                    sudoku[r][c] = 0;
                    assert(cells(sudoku) =~~= with_cell(h, r as int, c as int, 0));
                    assert(g[r as int] =~= h[r as int].update(c as int, 0));
                    assert(cells(sudoku) =~~= g);
                    proof {
                        assert forall|s: Seq<Seq<u8>>|
                            solved(s, b) && #[trigger] extends(g, s) implies s[r as int][c as int] >= v + 1 by {
                            if s[r as int][c as int] == v {
                                assert forall|r1: int, c1: int|
                                    in_grid(h.len() as int, r1, c1) && #[trigger] h[r1][c1] != 0 implies s[r1][c1]
                                    == h[r1][c1] by {
                                    if r1 != r || c1 != c {
                                        assert(h[r1][c1] == g[r1][c1]);
                                    }
                                }
                                assert(extends(h, s));
                            }
                        }
                    }
                } else {
                    proof {
                        assert forall|s: Seq<Seq<u8>>|
                            solved(s, b) && #[trigger] extends(g, s) implies s[r as int][c as int] >= v + 1 by {
                            if s[r as int][c as int] == v {
                                let (r2, c2) = choose|r2: int, c2: int|
                                    in_grid(g.len() as int, r2, c2) && (r2 != r || c2 != c) && same_unit(
                                        b,
                                        r as int,
                                        c as int,
                                        r2,
                                        c2,
                                    ) && #[trigger] g[r2][c2] == v as u8;
                                assert(s[r2][c2] == g[r2][c2]);
                                assert(placeable(s, b, r as int, c as int, s[r as int][c as int]));
                            }
                        }
                    }
                }
                v = v + 1;
            }
            proof {
                if solvable(g, b) {
                    let s = choose|s: Seq<Seq<u8>>| solved(s, b) && #[trigger] extends(g, s);
                    assert(s[r as int][c as int] <= size);
                }
            }
            false
        },
    }
}

/// A solved grid for boxes of edge `b`: row `r` is the row `1..=n` turned by
/// `b * (r % b) + r / b` places.
pub open spec fn pattern(b: int) -> Seq<Seq<u8>> {
    Seq::new(
        (b * b) as nat,
        |r: int| Seq::new((b * b) as nat, |c: int| ((b * (r % b) + r / b + c) % (b * b) + 1) as u8),
    )
}

proof fn lemma_shift_injective(k: int, x: int, y: int, n: int)
    requires
        n > 0,
        0 <= x < n,
        0 <= y < n,
        (k + x) % n == (k + y) % n,
    ensures
        x == y,
{
    lemma_fundamental_div_mod(k + x, n);
    lemma_fundamental_div_mod(k + y, n);
    let q1 = (k + x) / n;
    let q2 = (k + y) / n;
    assert(q1 == q2) by (nonlinear_arith)
        requires
            x - y == n * q1 - n * q2,
            -n < x - y < n,
            n > 0,
    ;
}

proof fn lemma_digits(b: int, t1: int, u1: int, t2: int, u2: int)
    requires
        b > 0,
        0 <= t1 < b,
        0 <= u1 < b,
        0 <= t2 < b,
        0 <= u2 < b,
    ensures
        0 <= b * t1 + u1 < b * b,
        b * t1 + u1 == b * t2 + u2 ==> t1 == t2 && u1 == u2,
{
    assert(0 <= b * t1 + u1 < b * b) by (nonlinear_arith)
        requires
            b > 0,
            0 <= t1 < b,
            0 <= u1 < b,
    ;
    if b * t1 + u1 == b * t2 + u2 {
        assert(t1 == t2) by (nonlinear_arith)
            requires
                b * t1 - b * t2 == u2 - u1,
                -b < u2 - u1 < b,
                b > 0,
        ;
    }
}

/// The turned-rows grid is a solution, so every blank board can be finished.
pub proof fn lemma_pattern_solved(b: int)
    requires
        0 < b,
        b * b <= 255,
    ensures
        solved(pattern(b), b),
{
    let n = b * b;
    let p = pattern(b);
    assert forall|r: int, c: int| in_grid(n, r, c) implies 1 <= #[trigger] p[r][c] <= n
        && p[r][c] == (b * (r % b) + r / b + c) % n + 1 by {
        lemma_mod_bound(b * (r % b) + r / b + c, n);
    }
    assert forall|r: int, c: int| in_grid(n, r, c) implies placeable(p, b, r, c, #[trigger] p[r][c]) by {
        assert forall|r2: int, c2: int|
            in_grid(n, r2, c2) && (r2 != r || c2 != c) && same_unit(b, r, c, r2, c2) implies #[trigger] p[r2][c2]
            != p[r][c] by {
            lemma_band(b, r);
            lemma_band(b, r2);
            lemma_band(b, c);
            lemma_band(b, c2);
            lemma_fundamental_div_mod(r, b);
            lemma_fundamental_div_mod(r2, b);
            lemma_fundamental_div_mod(c, b);
            lemma_fundamental_div_mod(c2, b);
            lemma_mod_bound(r, b);
            lemma_mod_bound(r2, b);
            lemma_mod_bound(c, b);
            lemma_mod_bound(c2, b);
            lemma_digits(b, r % b, r / b, r2 % b, r2 / b);
            lemma_digits(b, r % b, c % b, r2 % b, c2 % b);
            lemma_digits(b, r2 % b, r2 / b, r % b, r / b);
            lemma_digits(b, r2 % b, c2 % b, r % b, c % b);
            if p[r2][c2] == p[r][c] {
                if r == r2 {
                    lemma_shift_injective(b * (r % b) + r / b, c, c2, n);
                } else if c == c2 {
                    lemma_shift_injective(c, b * (r % b) + r / b, b * (r2 % b) + r2 / b, n);
                } else {
                    let k = r / b + b * (c / b);
                    assert(b * (r % b) + r / b + c == k + (b * (r % b) + c % b));
                    assert(b * (r2 % b) + r2 / b + c2 == k + (b * (r2 % b) + c2 % b));
                    lemma_shift_injective(k, b * (r % b) + c % b, b * (r2 % b) + c2 % b, n);
                }
            }
        }
    }
}

/// Whether no cell holds more than the edge length.
fn values_fit(sudoku: &Vec<Vec<u8>>) -> (ok: bool)
    requires
        is_square(cells(sudoku)),
    ensures
        ok == values_in_range(cells(sudoku)),
{
    let ghost g = cells(sudoku);
    let size = sudoku.len();
    let mut row: usize = 0;
    while row < size
        invariant
            g == cells(sudoku),
            is_square(g),
            size == g.len(),
            row <= size,
            forall|r: int, c: int| 0 <= r < row && 0 <= c < size ==> #[trigger] g[r][c] <= size,
        decreases size - row,
    {
        let mut column: usize = 0;
        assert(g[row as int].len() == size);
        while column < size
            invariant
                g == cells(sudoku),
                is_square(g),
                size == g.len(),
                row < size,
                column <= size,
                g[row as int].len() == size,
                forall|r: int, c: int| 0 <= r < row && 0 <= c < size ==> #[trigger] g[r][c] <= size,
                forall|c: int| 0 <= c < column ==> #[trigger] g[row as int][c] <= size,
            decreases size - column,
        {
            if sudoku[row][column] as usize > size {
                assert(!(g[row as int][column as int] <= g.len()));
                return false;
            }
            column = column + 1;
        }
        row = row + 1;
    }
    true
}

/// An `n` by `n` grid of blanks.
pub fn empty_grid(n: usize) -> (g: Vec<Vec<u8>>)
    ensures
        cells(&g) == blank_grid(n as nat),
{
    let mut g: Vec<Vec<u8>> = Vec::new();
    let mut i: usize = 0;
    while i < n
        invariant
            i <= n,
            g.len() == i,
            forall|r: int| 0 <= r < i ==> #[trigger] g@[r]@ == Seq::new(n as nat, |c: int| 0u8),
        decreases n - i,
    {
        let mut row: Vec<u8> = Vec::new();
        let mut j: usize = 0;
        while j < n
            invariant
                j <= n,
                row@ == Seq::new(j as nat, |c: int| 0u8),
            decreases n - j,
        {
            row.push(0);
            j = j + 1;
            assert(row@ =~= Seq::new(j as nat, |c: int| 0u8));
        }
        g.push(row);
        i = i + 1;
    }
    assert(cells(&g) =~= blank_grid(n as nat));
    g
}

/// Fills every blank of the grid so that it becomes a solved Sudoku that keeps
/// the given cells. Returns false, leaving the grid as it was, exactly when no
/// such solution exists (a clash among the given cells included).
pub fn solve_sudoku(sudoku: &mut Vec<Vec<u8>>) -> (done: bool)
    requires
        is_square(cells(old(sudoku))),
        is_perfect_square(old(sudoku).len() as int),
        old(sudoku).len() <= 255,
    ensures
        final(sudoku).len() == old(sudoku).len(),
        done ==> solved(cells(final(sudoku)), isqrt(old(sudoku).len() as int)) && extends(
            cells(old(sudoku)),
            cells(final(sudoku)),
        ),
        !done ==> cells(final(sudoku)) == cells(old(sudoku)) && !solvable(
            cells(old(sudoku)),
            isqrt(old(sudoku).len() as int),
        ),
{
    let size = sudoku.len();
    let size_sqrt = box_edge_of(size);
    if size == 0 {
        assert(size_sqrt == 0) by (nonlinear_arith)
            requires
                size_sqrt * size_sqrt <= size,
                size == 0,
        ;
        return false;
    }
    assert(size_sqrt > 0) by (nonlinear_arith)
        requires
            size_sqrt * size_sqrt == size,
            size > 0,
    ;
    if !verify(sudoku) || !values_fit(sudoku) {
        proof {
            if solvable(cells(sudoku), size_sqrt as int) {
                lemma_solvable_needs_consistent(cells(sudoku), size_sqrt as int);
            }
        }
        return false;
    }
    solve_from(sudoku, size, size_sqrt, 0, 0)
}

/// A solved grid of the given size: every row, column and box holds each of
/// `1..=n` once.
pub fn generate(size: BoardSize) -> (sudoku: Vec<Vec<u8>>)
    ensures
        sudoku.len() == size.edge(),
        solved(cells(&sudoku), size.box_edge() as int),
{
    let n = size.size();
    let mut sudoku = empty_grid(n);
    proof {
        let b = size.box_edge() as int;
        let g = cells(&sudoku);
        lemma_pattern_solved(b);
        assert(extends(g, pattern(b)));
        assert(is_isqrt(n as int, b)) by {
            match size {
                BoardSize::Four => {},
                BoardSize::Nine => {},
                BoardSize::Sixteen => {},
            }
        }
        lemma_isqrt_unique(n as int, b, isqrt(n as int));
    }
    solve_sudoku(&mut sudoku);
    sudoku
}

} // verus!

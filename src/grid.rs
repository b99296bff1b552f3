//! Grids and the rule that every row, column and box holds a value at most once.
use vstd::prelude::*;
use vstd::arithmetic::div_mod::*;

verus! {

/// The cells of a grid, row by row.
pub open spec fn cells(g: &Vec<Vec<u8>>) -> Seq<Seq<u8>> {
    g@.map_values(|row: Vec<u8>| row@)
}

/// `n` rows of `n` cells each, where `n` is the number of rows.
pub open spec fn is_square(g: Seq<Seq<u8>>) -> bool {
    forall|r: int| 0 <= r < g.len() ==> #[trigger] g[r].len() == g.len()
}

pub open spec fn in_grid(n: int, r: int, c: int) -> bool {
    0 <= r < n && 0 <= c < n
}

/// `b` is the integer square root of `n`.
pub open spec fn is_isqrt(n: int, b: int) -> bool {
    0 <= b && b * b <= n < (b + 1) * (b + 1)
}

/// The edge of a box on a board whose edge is `n`.
pub open spec fn isqrt(n: int) -> int {
    choose|b: int| is_isqrt(n, b)
}

/// Boards whose boxes tile them exactly.
pub open spec fn is_perfect_square(n: int) -> bool {
    isqrt(n) * isqrt(n) == n
}

/// Two positions share a row, a column, or a box of edge `b`.
pub open spec fn same_unit(b: int, r1: int, c1: int, r2: int, c2: int) -> bool {
    r1 == r2 || c1 == c2 || (r1 / b == r2 / b && c1 / b == c2 / b)
}

/// Putting `v` at `(r, c)` breaks no rule: no other cell of its row, column or
/// box holds `v`. A blank is never in violation.
pub open spec fn placeable(g: Seq<Seq<u8>>, b: int, r: int, c: int, v: u8) -> bool {
    v == 0 || forall|r2: int, c2: int|
        in_grid(g.len() as int, r2, c2) && (r2 != r || c2 != c) && same_unit(b, r, c, r2, c2)
            ==> #[trigger] g[r2][c2] != v
}

/// Every cell's value, blank or not, is placeable where it stands.
pub open spec fn consistent(g: Seq<Seq<u8>>, b: int) -> bool {
    forall|r: int, c: int| in_grid(g.len() as int, r, c) ==> placeable(g, b, r, c, #[trigger] g[r][c])
}

/// Every cell holds one of `1..=n`.
pub open spec fn complete(g: Seq<Seq<u8>>) -> bool {
    forall|r: int, c: int| in_grid(g.len() as int, r, c) ==> 1 <= #[trigger] g[r][c] <= g.len()
}

/// A finished Sudoku with boxes of edge `b`.
pub open spec fn solved(g: Seq<Seq<u8>>, b: int) -> bool {
    &&& is_square(g)
    &&& b > 0
    &&& b * b == g.len()
    &&& complete(g)
    &&& consistent(g, b)
}

/// The first row (or column) of the box band that holds `x`, and the facts
/// that tie it to division by `b`.
pub proof fn lemma_band(b: int, x: int)
    requires
        b > 0,
        0 <= x,
    ensures
        b * (x / b) <= x < b * (x / b) + b,
        x % b == x - b * (x / b),
        x < b * b ==> x / b < b && b * (x / b) + b <= b * b,
        forall|d: int| 0 <= d < b ==> #[trigger] ((b * (x / b) + d) / b) == x / b,
{
    lemma_fundamental_div_mod(x, b);
    lemma_mod_bound(x, b);
    let q = x / b;
    if x < b * b {
        assert(q < b) by (nonlinear_arith)
            requires
                x < b * b,
                b * q <= x,
                b > 0,
        ;
        assert(b * q + b <= b * b) by (nonlinear_arith)
            requires
                q < b,
                b > 0,
        ;
    }
    assert forall|d: int| 0 <= d < b implies #[trigger] ((b * q + d) / b) == q by {
        assert(b * q == q * b) by (nonlinear_arith);
        lemma_fundamental_div_mod_converse_div(b * q + d, b, q, d);
    }
}

/// A position whose row and column fall in the band of `(r, c)` is in its box.
proof fn lemma_box_cell(b: int, r: int, c: int, r2: int, c2: int)
    requires
        b > 0,
        0 <= r,
        0 <= c,
        0 <= r2,
        0 <= c2,
        r2 / b == r / b,
        c2 / b == c / b,
    ensures
        b * (r / b) <= r2 < b * (r / b) + b,
        b * (c / b) <= c2 < b * (c / b) + b,
{
    lemma_band(b, r2);
    lemma_band(b, c2);
}

/// Whether `num` may stand at `(row, column)`: no other cell of the same row,
/// column or box already holds it. Cells are told apart by position, so a
/// cell's own value never counts against it.
pub fn is_valid(sudoku: &Vec<Vec<u8>>, size_sqrt: usize, row: usize, column: usize, num: u8) -> (ok: bool)
    requires
        is_square(cells(sudoku)),
        size_sqrt > 0,
        size_sqrt * size_sqrt == sudoku.len(),
        row < sudoku.len(),
        column < sudoku.len(),
    ensures
        ok == placeable(cells(sudoku), size_sqrt as int, row as int, column as int, num),
{
    let ghost g = cells(sudoku);
    let ghost b = size_sqrt as int;
    let size = sudoku.len();
    proof {
        lemma_band(b, row as int);
        lemma_band(b, column as int);
    }
    let mut i: usize = 0;
    while i < size
        invariant
            g == cells(sudoku),
            is_square(g),
            size == g.len(),
            row < size,
            column < size,
            i <= size,
            forall|j: int|
                0 <= j < i ==> (num == 0 || (j != column ==> #[trigger] g[row as int][j] != num)),
            forall|j: int| 0 <= j < i ==> (num == 0 || (j != row ==> #[trigger] g[j][column as int] != num)),
        decreases size - i,
    {
        assert(g[row as int].len() == size && g[i as int].len() == size);
        if num != 0 && ((i != column && sudoku[row][i] == num) || (i != row && sudoku[i][column] == num)) {
            return false;
        }
        i = i + 1;
    }
    let top = row - row % size_sqrt;
    let left = column - column % size_sqrt;
    let mut dr: usize = 0;
    while dr < size_sqrt
        invariant
            g == cells(sudoku),
            is_square(g),
            size == g.len(),
            b == size_sqrt,
            b > 0,
            top == b * (row as int / b),
            left == b * (column as int / b),
            top + b <= size,
            left + b <= size,
            dr <= size_sqrt,
            forall|j: int| 0 <= j < size ==> (num == 0 || (j != column ==> #[trigger] g[row as int][j] != num)),
            forall|j: int| 0 <= j < size ==> (num == 0 || (j != row ==> #[trigger] g[j][column as int] != num)),
            forall|r2: int, c2: int|
                top <= r2 < top + dr && left <= c2 < left + b && (r2 != row || c2 != column) ==> (num == 0
                    || #[trigger] g[r2][c2] != num),
        decreases size_sqrt - dr,
    {
        let mut dc: usize = 0;
        while dc < size_sqrt
            invariant
                g == cells(sudoku),
                is_square(g),
                size == g.len(),
                b == size_sqrt,
                b > 0,
                top == b * (row as int / b),
                left == b * (column as int / b),
                top + b <= size,
                left + b <= size,
                dr < size_sqrt,
                dc <= size_sqrt,
                forall|r2: int, c2: int|
                    top <= r2 < top + dr && left <= c2 < left + b && (r2 != row || c2 != column) ==> (num
                        == 0 || #[trigger] g[r2][c2] != num),
                forall|c2: int|
                    left <= c2 < left + dc && (top + dr != row || c2 != column) ==> (num == 0
                        || #[trigger] g[top + dr][c2] != num),
            decreases size_sqrt - dc,
        {
            let r2 = top + dr;
            let c2 = left + dc;
            assert(g[r2 as int].len() == size);
            if num != 0 && (r2 != row || c2 != column) && sudoku[r2][c2] == num {
                proof {
                    lemma_band(b, row as int);
                    lemma_band(b, column as int);
                    assert((b * (row as int / b) + dr as int) / b == row as int / b);
                    assert((b * (column as int / b) + dc as int) / b == column as int / b);
                    assert(same_unit(b, row as int, column as int, r2 as int, c2 as int));
                }
                return false;
            }
            dc = dc + 1;
        }
        dr = dr + 1;
    }
    proof {
        if num != 0 {
            assert forall|r2: int, c2: int|
                in_grid(g.len() as int, r2, c2) && (r2 != row || c2 != column) && same_unit(
                    b,
                    row as int,
                    column as int,
                    r2,
                    c2,
                ) implies #[trigger] g[r2][c2] != num by {
                if r2 == row {
                } else if c2 == column {
                } else {
                    lemma_box_cell(b, row as int, column as int, r2, c2);
                }
            }
        }
    }
    true
}

/// A number has one integer square root.
pub proof fn lemma_isqrt_unique(n: int, a: int, b: int)
    requires
        is_isqrt(n, a),
        is_isqrt(n, b),
    ensures
        a == b,
{
    if a < b {
        assert((a + 1) * (a + 1) <= b * b) by (nonlinear_arith)
            requires
                0 <= a,
                a + 1 <= b,
        ;
    } else if b < a {
        assert((b + 1) * (b + 1) <= a * a) by (nonlinear_arith)
            requires
                0 <= b,
                b + 1 <= a,
        ;
    }
}

/// The integer square root of `n`: the edge of a box on a board of edge `n`.
pub fn box_edge_of(n: usize) -> (b: usize)
    ensures
        is_isqrt(n as int, b as int),
        b == isqrt(n as int),
{
    let mut b: usize = 0;
    loop
        invariant
            b * b <= n,
            b <= 0x1_0000_0000,
        ensures
            is_isqrt(n as int, b as int),
        decreases n - b,
    {
        let next: u128 = b as u128 + 1;
        assert(next * next <= 0x1_0000_0002_0000_0001) by (nonlinear_arith)
            requires
                next <= 0x1_0000_0001,
        ;
        if next * next > n as u128 {
            break;
        }
        assert(b < 0x1_0000_0000 && b + 1 <= n) by (nonlinear_arith)
            requires
                n <= usize::MAX,
                usize::MAX < 0x1_0000_0000_0000_0000int,
                next == b + 1,
                next * next <= n,
        ;
        b = b + 1;
    }
    proof {
        assert(is_isqrt(n as int, b as int));
        lemma_isqrt_unique(n as int, b as int, isqrt(n as int));
    }
    b
}

/// Whether the whole grid keeps the rule: every cell, blank or filled, is
/// valid where it stands. A partly filled grid without clashes passes.
pub fn verify(sudoku: &Vec<Vec<u8>>) -> (ok: bool)
    requires
        is_square(cells(sudoku)),
        is_perfect_square(sudoku.len() as int),
    ensures
        ok == consistent(cells(sudoku), isqrt(sudoku.len() as int)),
{
    let ghost g = cells(sudoku);
    let size = sudoku.len();
    let size_sqrt = box_edge_of(size);
    if size == 0 {
        return true;
    }
    assert(size_sqrt > 0) by (nonlinear_arith)
        requires
            size_sqrt * size_sqrt == size,
            size > 0,
    ;
    let mut row: usize = 0;
    while row < size
        invariant
            g == cells(sudoku),
            is_square(g),
            size == g.len(),
            size_sqrt > 0,
            size_sqrt * size_sqrt == size,
            size_sqrt == isqrt(size as int),
            row <= size,
            forall|r: int, c: int|
                0 <= r < row && 0 <= c < size ==> placeable(g, size_sqrt as int, r, c, #[trigger] g[r][c]),
        decreases size - row,
    {
        let mut column: usize = 0;
        while column < size
            invariant
                g == cells(sudoku),
                is_square(g),
                size == g.len(),
                size_sqrt > 0,
                size_sqrt * size_sqrt == size,
                size_sqrt == isqrt(size as int),
                row < size,
                column <= size,
                forall|r: int, c: int|
                    0 <= r < row && 0 <= c < size ==> placeable(g, size_sqrt as int, r, c, #[trigger] g[r][c]),
                forall|c: int|
                    0 <= c < column ==> placeable(g, size_sqrt as int, row as int, c, #[trigger] g[row as int][c]),
            decreases size - column,
        {
            assert(g[row as int].len() == size);
            if !is_valid(sudoku, size_sqrt, row, column, sudoku[row][column]) {
                assert(sudoku[row as int]@[column as int] == g[row as int][column as int]);
                assert(!placeable(g, size_sqrt as int, row as int, column as int, g[row as int][column as int]));
                assert(in_grid(g.len() as int, row as int, column as int));
                return false;
            }
            column = column + 1;
        }
        row = row + 1;
    }
    true
}

/// Row `r` holds `v` somewhere.
pub open spec fn row_holds(g: Seq<Seq<u8>>, r: int, v: int) -> bool {
    exists|c: int| 0 <= c < g.len() && g[r][c] == v
}

/// Column `c` holds `v` somewhere.
pub open spec fn column_holds(g: Seq<Seq<u8>>, c: int, v: int) -> bool {
    exists|r: int| 0 <= r < g.len() && g[r][c] == v
}

/// The box in band `q` and stack `k` holds `v` somewhere.
pub open spec fn box_holds(g: Seq<Seq<u8>>, b: int, q: int, k: int, v: int) -> bool {
    exists|r: int, c: int| in_grid(g.len() as int, r, c) && r / b == q && c / b == k && g[r][c] == v
}

/// Some `i` in `0..n` has `f(i) == v`.
spec fn hits(n: int, f: spec_fn(int) -> int, v: int) -> bool {
    exists|i: int| 0 <= i < n && #[trigger] f(i) == v
}

/// `n` distinct values drawn from `1..=n` take every value of `1..=n`.
proof fn lemma_pigeonhole(n: int, f: spec_fn(int) -> int)
    requires
        n >= 0,
        forall|i: int| 0 <= i < n ==> 1 <= #[trigger] f(i) <= n,
        forall|i: int, j: int| 0 <= i < n && 0 <= j < n && i != j ==> #[trigger] f(i) != #[trigger] f(j),
    ensures
        forall|v: int| 1 <= v <= n ==> #[trigger] hits(n, f, v),
{
    let dom = vstd::set_lib::set_int_range(0, n);
    let target = vstd::set_lib::set_int_range(1, n + 1);
    let image = dom.map(f);
    vstd::set_lib::lemma_int_range(0, n);
    vstd::set_lib::lemma_int_range(1, n + 1);
    assert(vstd::relations::injective_on(f, dom));
    vstd::set_lib::lemma_map_size(dom, image, f);
    assert(image.subset_of(target));
    vstd::set_lib::lemma_subset_equality(image, target);
    assert forall|v: int| 1 <= v <= n implies #[trigger] hits(n, f, v) by {
        assert(target.contains(v));
        assert(image.contains(v));
    }
}

/// A solved grid passes `verify`, and each of its rows, columns and boxes
/// holds every value of `1..=n`.
pub proof fn lemma_solved_grid_verifies(g: Seq<Seq<u8>>, b: int)
    requires
        solved(g, b),
    ensures
        is_perfect_square(g.len() as int),
        isqrt(g.len() as int) == b,
        consistent(g, isqrt(g.len() as int)),
        forall|r: int, v: int| 0 <= r < g.len() && 1 <= v <= g.len() ==> #[trigger] row_holds(g, r, v),
        forall|c: int, v: int| 0 <= c < g.len() && 1 <= v <= g.len() ==> #[trigger] column_holds(g, c, v),
        forall|q: int, k: int, v: int|
            0 <= q < b && 0 <= k < b && 1 <= v <= g.len() ==> #[trigger] box_holds(g, b, q, k, v),
{
    let n = g.len() as int;
    assert(is_isqrt(n, b)) by {
        assert(n < (b + 1) * (b + 1)) by (nonlinear_arith)
            requires
                n == b * b,
                b > 0,
        ;
    }
    lemma_isqrt_unique(n, b, isqrt(n));
    assert forall|r: int, v: int| 0 <= r < n && 1 <= v <= n implies #[trigger] row_holds(g, r, v) by {
        let f = |c: int| g[r][c] as int;
        assert forall|i: int| 0 <= i < n implies 1 <= #[trigger] f(i) <= n by {
            assert(1 <= g[r][i] <= n);
        }
        assert forall|i: int, j: int| 0 <= i < n && 0 <= j < n && i != j implies #[trigger] f(i) != #[trigger] f(j) by {
            assert(placeable(g, b, r, i, g[r][i]));
            assert(same_unit(b, r, i, r, j));
        }
        lemma_pigeonhole(n, f);
        assert(hits(n, f, v));
        let c = choose|c: int| 0 <= c < n && #[trigger] f(c) == v;
        assert(g[r][c] == v);
    }
    assert forall|c: int, v: int| 0 <= c < n && 1 <= v <= n implies #[trigger] column_holds(g, c, v) by {
        let f = |r: int| g[r][c] as int;
        assert forall|i: int| 0 <= i < n implies 1 <= #[trigger] f(i) <= n by {
            assert(1 <= g[i][c] <= n);
        }
        assert forall|i: int, j: int| 0 <= i < n && 0 <= j < n && i != j implies #[trigger] f(i) != #[trigger] f(j) by {
            assert(placeable(g, b, i, c, g[i][c]));
            assert(same_unit(b, i, c, j, c));
        }
        lemma_pigeonhole(n, f);
        assert(hits(n, f, v));
        let r = choose|r: int| 0 <= r < n && #[trigger] f(r) == v;
        assert(g[r][c] == v);
    }
    assert forall|q: int, k: int, v: int| 0 <= q < b && 0 <= k < b && 1 <= v <= n implies #[trigger] box_holds(
        g,
        b,
        q,
        k,
        v,
    ) by {
        let f = |i: int| g[b * q + i / b][b * k + i % b] as int;
        assert forall|i: int| 0 <= i < n implies 1 <= #[trigger] f(i) <= n && in_grid(n, b * q + i / b, b * k + i % b)
            && (b * q + i / b) / b == q && (b * k + i % b) / b == k by {
            lemma_band(b, i);
            lemma_mod_bound(i, b);
            assert(b * q + i / b < n && b * k + i % b < n) by (nonlinear_arith)
                requires
                    0 <= i / b < b,
                    0 <= i % b < b,
                    q < b,
                    k < b,
                    n == b * b,
            ;
            assert(0 <= b * q && 0 <= b * k) by (nonlinear_arith)
                requires
                    0 <= q,
                    0 <= k,
                    b > 0,
            ;
            lemma_fundamental_div_mod_converse_div(b * q + i / b, b, q, i / b);
            lemma_fundamental_div_mod_converse_div(b * k + i % b, b, k, i % b);
        }
        assert forall|i: int, j: int| 0 <= i < n && 0 <= j < n && i != j implies #[trigger] f(i) != #[trigger] f(j) by {
            let (r1, c1) = (b * q + i / b, b * k + i % b);
            let (r2, c2) = (b * q + j / b, b * k + j % b);
            assert(1 <= f(i) <= n && in_grid(n, r1, c1) && r1 / b == q && c1 / b == k);
            assert(1 <= f(j) <= n && in_grid(n, r2, c2) && r2 / b == q && c2 / b == k);
            lemma_fundamental_div_mod(i, b);
            lemma_fundamental_div_mod(j, b);
            assert(r1 != r2 || c1 != c2);
            assert(placeable(g, b, r1, c1, g[r1][c1]));
            assert(same_unit(b, r1, c1, r2, c2));
        }
        lemma_pigeonhole(n, f);
        assert(hits(n, f, v));
        let i = choose|i: int| 0 <= i < n && #[trigger] f(i) == v;
        assert(1 <= f(i) <= n && in_grid(n, b * q + i / b, b * k + i % b) && (b * q + i / b) / b == q && (b * k + i
            % b) / b == k);
        assert(g[b * q + i / b][b * k + i % b] == v);
    }
}

} // verus!

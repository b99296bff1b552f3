//! Drawing a grid as bordered text, with a separator after every band of boxes.
use vstd::prelude::*;
use vstd::string::StringExecFns;
use crate::grid::{box_edge_of, cells, isqrt, is_square};

verus! {

/// How cells and separators are drawn.
#[derive(Debug, Clone, Copy, PartialEq, Eq, Structural)]
pub enum Style {
    /// Numbers padded to two places on boards of ten or more, blanks as
    /// underscores of the same width.
    Padded,
    /// Numbers as they are, blanks as one underscore.
    Compact,
}

pub open spec fn digit(d: nat) -> Seq<char> {
    if d == 0 {
        "0"@
    } else if d == 1 {
        "1"@
    } else if d == 2 {
        "2"@
    } else if d == 3 {
        "3"@
    } else if d == 4 {
        "4"@
    } else if d == 5 {
        "5"@
    } else if d == 6 {
        "6"@
    } else if d == 7 {
        "7"@
    } else if d == 8 {
        "8"@
    } else {
        "9"@
    }
}

/// The decimal digits of `v`.
pub open spec fn decimal(v: nat) -> Seq<char>
    decreases v,
{
    if v < 10 {
        digit(v)
    } else {
        decimal(v / 10) + digit(v % 10)
    }
}

/// Boards of ten or more cells a side give every number two places.
pub open spec fn wide(n: int) -> bool {
    n / 10 != 0
}

pub open spec fn cell_text(style: Style, n: int, v: u8) -> Seq<char> {
    match style {
        Style::Padded => if v == 0 {
            if wide(n) {
                "__"@
            } else {
                "_"@
            }
        } else if v < 10 && wide(n) {
            " "@ + decimal(v as nat)
        } else {
            decimal(v as nat)
        },
        Style::Compact => if v == 0 {
            "_"@
        } else {
            decimal(v as nat)
        },
    }
}

/// One piece of the separator line.
pub open spec fn rule_piece(style: Style, n: int) -> Seq<char> {
    match style {
        Style::Padded => if wide(n) {
            " --"@
        } else {
            " -"@
        },
        Style::Compact => "--"@,
    }
}

/// How many pieces the separator line has on a board of edge `n` with boxes
/// of edge `b`.
pub open spec fn rule_length(style: Style, n: int, b: int) -> int {
    match style {
        Style::Padded => if wide(n) {
            n + b - n / 10
        } else {
            n + b
        },
        Style::Compact => n + b,
    }
}

pub open spec fn repeat(s: Seq<char>, k: nat) -> Seq<char>
    decreases k,
{
    if k == 0 {
        Seq::empty()
    } else {
        repeat(s, (k - 1) as nat) + s
    }
}

/// The separator line, ended by a newline.
pub open spec fn rule(style: Style, n: int, b: int) -> Seq<char> {
    repeat(rule_piece(style, n), rule_length(style, n, b) as nat) + "\n"@
}

/// A cell with the space before it, and a bar after the last cell of a box.
pub open spec fn cell_entry(style: Style, n: int, b: int, c: int, v: u8) -> Seq<char> {
    " "@ + cell_text(style, n, v) + if (c + 1) % b == 0 {
        " |"@
    } else {
        Seq::empty()
    }
}

/// The first `k` cells of row `r`.
pub open spec fn row_cells(style: Style, g: Seq<Seq<u8>>, b: int, r: int, k: nat) -> Seq<char>
    decreases k,
{
    if k == 0 {
        Seq::empty()
    } else {
        row_cells(style, g, b, r, (k - 1) as nat) + cell_entry(style, g.len() as int, b, k - 1, g[r][k - 1])
    }
}

/// Row `r` as a line, followed by the separator when it closes a band of boxes.
pub open spec fn row_line(style: Style, g: Seq<Seq<u8>>, b: int, r: int) -> Seq<char> {
    row_cells(style, g, b, r, g.len()) + "\n"@ + if (r + 1) % b == 0 {
        rule(style, g.len() as int, b)
    } else {
        Seq::empty()
    }
}

/// The first `k` rows.
pub open spec fn rows(style: Style, g: Seq<Seq<u8>>, b: int, k: nat) -> Seq<char>
    decreases k,
{
    if k == 0 {
        Seq::empty()
    } else {
        rows(style, g, b, (k - 1) as nat) + row_line(style, g, b, k - 1)
    }
}

/// The whole drawing: a separator, then every row.
pub open spec fn drawing(style: Style, g: Seq<Seq<u8>>) -> Seq<char> {
    rule(style, g.len() as int, isqrt(g.len() as int)) + rows(style, g, isqrt(g.len() as int), g.len())
}

fn digit_text(d: u8) -> (t: &'static str)
    requires
        d < 10,
    ensures
        t@ == digit(d as nat),
{
    match d {
        0 => "0",
        1 => "1",
        2 => "2",
        3 => "3",
        4 => "4",
        5 => "5",
        6 => "6",
        7 => "7",
        8 => "8",
        _ => "9",
    }
}

/// Appends the decimal digits of `v`.
fn push_number(out: &mut String, v: u8)
    ensures
        final(out)@ == old(out)@ + decimal(v as nat),
{
    if v >= 100 {
        out.append(digit_text(v / 100));
    }
    if v >= 10 {
        out.append(digit_text((v / 10) % 10));
    }
    out.append(digit_text(v % 10));
    proof {
        let x = v as nat;
        if x >= 10 {
            assert(decimal(x) == decimal(x / 10) + digit(x % 10));
            if x >= 100 {
                assert((x / 10) / 10 == x / 100 && (x / 10) % 10 == (v / 10) % 10) by (nonlinear_arith)
                    requires
                        x == v,
                        x < 256,
                ;
                assert(decimal(x / 10) == decimal((x / 10) / 10) + digit((x / 10) % 10));
            }
        }
        assert(final(out)@ =~= old(out)@ + decimal(x));
    }
}

fn push_cell(out: &mut String, style: Style, n: usize, v: u8)
    ensures
        final(out)@ == old(out)@ + cell_text(style, n as int, v),
{
    let wide = n / 10 != 0;
    match style {
        Style::Padded => {
            if v == 0 {
                if wide {
                    out.append("__");
                } else {
                    out.append("_");
                }
            } else if v < 10 && wide {
                out.append(" ");
                push_number(out, v);
            } else {
                push_number(out, v);
            }
        },
        Style::Compact => {
            if v == 0 {
                out.append("_");
            } else {
                push_number(out, v);
            }
        },
    }
    assert(final(out)@ =~= old(out)@ + cell_text(style, n as int, v));
}

proof fn lemma_repeat_add(s: Seq<char>, j: nat, k: nat)
    ensures
        repeat(s, j + k) == repeat(s, j) + repeat(s, k),
    decreases k,
{
    if k == 0 {
        assert(repeat(s, j) + repeat(s, 0) =~= repeat(s, j));
    } else {
        lemma_repeat_add(s, j, (k - 1) as nat);
        assert(repeat(s, (j + k) as nat) == repeat(s, (j + k - 1) as nat) + s);
        assert(repeat(s, j) + repeat(s, k) =~= repeat(s, j) + repeat(s, (k - 1) as nat) + s);
    }
}

/// Appends `k` pieces of the separator line.
fn push_pieces(out: &mut String, style: Style, n: usize, k: usize)
    ensures
        final(out)@ == old(out)@ + repeat(rule_piece(style, n as int), k as nat),
{
    let wide = n / 10 != 0;
    let ghost piece = rule_piece(style, n as int);
    let ghost start = out@;
    let mut i: usize = 0;
    while i < k
        invariant
            i <= k,
            wide == (n / 10 != 0),
            piece == rule_piece(style, n as int),
            out@ == start + repeat(piece, i as nat),
        decreases k - i,
    {
        let ghost before = out@;
        let text = match style {
            Style::Padded => if wide {
                " --"
            } else {
                " -"
            },
            Style::Compact => "--",
        };
        assert(text@ == piece);
        out.append(text);
        i = i + 1;
        assert(out@ =~= start + repeat(piece, i as nat));
    }
}

fn push_rule(out: &mut String, style: Style, n: usize, b: usize)
    ensures
        final(out)@ == old(out)@ + rule(style, n as int, b as int),
{
    let ghost start = out@;
    let ghost piece = rule_piece(style, n as int);
    let first = match style {
        Style::Padded => if n / 10 != 0 {
            n - n / 10
        } else {
            n
        },
        Style::Compact => n,
    };
    push_pieces(out, style, n, first);
    push_pieces(out, style, n, b);
    proof {
        lemma_repeat_add(piece, first as nat, b as nat);
        assert(rule_length(style, n as int, b as int) == first + b);
    }
    out.append("\n");
    assert(out@ =~= start + rule(style, n as int, b as int));
}

/// Draws the grid in the given style.
pub fn draw(sudoku: &Vec<Vec<u8>>, style: Style) -> (text: String)
    requires
        is_square(cells(sudoku)),
    ensures
        text@ == drawing(style, cells(sudoku)),
{
    let ghost g = cells(sudoku);
    let size = sudoku.len();
    let size_sqrt = box_edge_of(size);
    assert(size_sqrt <= size) by (nonlinear_arith)
        requires
            size_sqrt * size_sqrt <= size,
            size_sqrt >= 0,
    ;
    assert(size > 0 ==> size_sqrt > 0) by (nonlinear_arith)
        requires
            size < (size_sqrt + 1) * (size_sqrt + 1),
            size_sqrt >= 0,
    ;
    let ghost b = size_sqrt as int;
    let mut output = String::new();
    push_rule(&mut output, style, size, size_sqrt);
    let ghost head = output@;
    let mut row: usize = 0;
    while row < size
        invariant
            g == cells(sudoku),
            is_square(g),
            size == g.len(),
            b == size_sqrt,
            size_sqrt <= size,
            size > 0 ==> size_sqrt > 0,
            row <= size,
            head == rule(style, size as int, b),
            output@ == head + rows(style, g, b, row as nat),
        decreases size - row,
    {
        assert(size_sqrt > 0);
        assert(g[row as int].len() == size);
        let ghost before = output@;
        let mut column: usize = 0;
        while column < size
            invariant
                g == cells(sudoku),
                size == g.len(),
                g[row as int].len() == size,
                b == size_sqrt,
                size_sqrt > 0,
                row < size,
                column <= size,
                output@ == before + row_cells(style, g, b, row as int, column as nat),
            decreases size - column,
        {
            output.append(" ");
            push_cell(&mut output, style, size, sudoku[row][column]);
            if (column + 1) % size_sqrt == 0 {
                output.append(" |");
            }
            column = column + 1;
            assert(output@ =~= before + row_cells(style, g, b, row as int, column as nat));
        }
        output.append("\n");
        if (row + 1) % size_sqrt == 0 {
            push_rule(&mut output, style, size, size_sqrt);
        }
        row = row + 1;
        assert(output@ =~= head + rows(style, g, b, row as nat));
    }
    output
}

/// The grid as bordered text: numbers take two places on boards of ten or
/// more, blanks are underscores, and a separator closes every band of boxes.
pub fn sudoku_as_string(sudoku: &Vec<Vec<u8>>) -> (text: String)
    requires
        is_square(cells(sudoku)),
    ensures
        text@ == drawing(Style::Padded, cells(sudoku)),
{
    draw(sudoku, Style::Padded)
}

} // verus!

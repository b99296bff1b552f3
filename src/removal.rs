//! Turning a solved grid into a puzzle by blanking a share of its cells.
use vstd::prelude::*;
use vstd::arithmetic::div_mod::*;
use std::collections::HashSet;
use vstd::std_specs::hash::spec_hash_keys_iter;
use vstd::std_specs::iter::IteratorSpec;
use crate::board::Difficulty;
use crate::grid::{cells, complete, in_grid, is_square};

verus! {

broadcast use vstd::std_specs::hash::group_hash_axioms;

/// The blank cells of a grid, as `(row, column)` pairs.
pub open spec fn blanks(g: Seq<Seq<u8>>) -> Set<(int, int)> {
    Set::new(|p: (int, int)| in_grid(g.len() as int, p.0, p.1) && g[p.0][p.1] == 0)
}

/// How many cells a puzzle of edge `n` leaves blank at a difficulty.
pub open spec fn removal_count(n: int, difficulty: Difficulty) -> int {
    n * n * difficulty.percent() / 100
}

/// The cell that index `k` names when cells are numbered row by row.
pub open spec fn cell_of(n: int, k: int) -> (int, int) {
    (k / n, k % n)
}

/// `order` numbers each cell of an `n` by `n` board exactly once.
pub open spec fn is_cell_order(order: Seq<usize>, n: int) -> bool {
    &&& order.len() == n * n
    &&& order.no_duplicates()
    &&& forall|i: int| 0 <= i < order.len() ==> #[trigger] order[i] < n * n
}

/// The cells named by the first `count` entries of `order`.
pub open spec fn first_cells(order: Seq<usize>, n: int, count: int) -> Set<(int, int)> {
    Set::new(|p: (int, int)| exists|j: int| 0 <= j < count && #[trigger] cell_of(n, order[j] as int) == p)
}

proof fn lemma_cell_of(n: int, k: int)
    requires
        n > 0,
        0 <= k < n * n,
    ensures
        in_grid(n, cell_of(n, k).0, cell_of(n, k).1),
        k == n * cell_of(n, k).0 + cell_of(n, k).1,
{
    lemma_fundamental_div_mod(k, n);
    lemma_mod_bound(k, n);
    assert(k / n < n) by (nonlinear_arith)
        requires
            k == n * (k / n) + k % n,
            0 <= k % n,
            k < n * n,
            n > 0,
    ;
    assert(0 <= k / n) by (nonlinear_arith)
        requires
            k == n * (k / n) + k % n,
            k % n < n,
            0 <= k,
            n > 0,
    ;
}

/// Blanks the cells named by the first `floor(n * n * percentage / 100)`
/// entries of `order`, and leaves every other cell as it was.
pub fn apply_difficulty(sudoku: &mut Vec<Vec<u8>>, difficulty: Difficulty, order: &Vec<usize>)
    requires
        is_square(cells(old(sudoku))),
        complete(cells(old(sudoku))),
        is_cell_order(order@, old(sudoku).len() as int),
    ensures
        final(sudoku).len() == old(sudoku).len(),
        is_square(cells(final(sudoku))),
        forall|r: int, c: int|
            in_grid(old(sudoku).len() as int, r, c) ==> #[trigger] cells(final(sudoku))[r][c] == if first_cells(
                order@,
                old(sudoku).len() as int,
                removal_count(old(sudoku).len() as int, difficulty),
            ).contains((r, c)) {
                0
            } else {
                cells(old(sudoku))[r][c]
            },
        blanks(cells(final(sudoku))) == first_cells(
            order@,
            old(sudoku).len() as int,
            removal_count(old(sudoku).len() as int, difficulty),
        ),
        blanks(cells(final(sudoku))).finite(),
        blanks(cells(final(sudoku))).len() == removal_count(old(sudoku).len() as int, difficulty),
{
    let ghost g0 = cells(sudoku);
    let size = sudoku.len();
    let total = order.len();
    let percentage = difficulty.percentage();
    let count = ((total as u128) * (percentage as u128) / 100) as usize;
    assert(count <= total) by (nonlinear_arith)
        requires
            count == total * percentage / 100,
            percentage <= 100,
            total >= 0,
    ;
    let ghost mut removed: Set<(int, int)> = Set::empty();
    let mut i: usize = 0;
    while i < count
        invariant
            g0 == cells(old(sudoku)),
            is_square(g0),
            complete(g0),
            size == g0.len(),
            total == size * size,
            is_cell_order(order@, size as int),
            count <= total,
            count == removal_count(size as int, difficulty),
            i <= count,
            sudoku.len() == size,
            is_square(cells(sudoku)),
            removed == first_cells(order@, size as int, i as int),
            removed.finite(),
            removed.len() == i,
            forall|r: int, c: int|
                in_grid(size as int, r, c) ==> #[trigger] cells(sudoku)[r][c] == if removed.contains((r, c)) {
                    0
                } else {
                    g0[r][c]
                },
        decreases count - i,
    {
        let k = order[i];
        let ghost p = cell_of(size as int, k as int);
        proof {
            lemma_cell_of(size as int, k as int);
        }
        let row = k / size;
        let column = k % size;
        assert(cells(sudoku)[row as int].len() == size);
        let ghost before = cells(sudoku);
        sudoku[row][column] = 0;
        proof {
            assert(!removed.contains(p)) by {
                if removed.contains(p) {
                    let j = choose|j: int| 0 <= j < i && #[trigger] cell_of(size as int, order@[j] as int) == p;
                    lemma_cell_of(size as int, order@[j] as int);
                }
            }
            assert(removed.insert(p) =~= first_cells(order@, size as int, i + 1));
            removed = removed.insert(p);
            assert forall|r: int| 0 <= r < size implies #[trigger] cells(sudoku)[r].len() == size by {
                assert(before[r].len() == size);
            }
            assert forall|r: int, c: int| in_grid(size as int, r, c) implies #[trigger] cells(sudoku)[r][c]
                == if removed.contains((r, c)) {
                0
            } else {
                g0[r][c]
            } by {
                if r != row || c != column {
                    assert(cells(sudoku)[r][c] == before[r][c]);
                }
            }
        }
        i = i + 1;
    }
    proof {
        let g = cells(sudoku);
        assert forall|p: (int, int)| blanks(g).contains(p) <==> removed.contains(p) by {
            if in_grid(size as int, p.0, p.1) {
                assert(g[p.0][p.1] == if removed.contains(p) { 0 } else { g0[p.0][p.1] });
            } else if removed.contains(p) {
                let j = choose|j: int| 0 <= j < i && #[trigger] cell_of(size as int, order@[j] as int) == p;
                assert(size > 0) by (nonlinear_arith)
                    requires
                        0 < size * size,
                        size >= 0,
                ;
                lemma_cell_of(size as int, order@[j] as int);
            }
        }
        assert(blanks(g) =~= removed);
    }
}

/// Every cell index of an `n` by `n` board, in the order in which a hash set
/// of them is walked. The order depends on the set's hasher.
pub fn removal_order(n: usize) -> (order: Vec<usize>)
    requires
        n * n <= usize::MAX,
    ensures
        is_cell_order(order@, n as int),
{
    let total = n * n;
    let mut indices: HashSet<usize> = HashSet::with_capacity(total);
    let mut k: usize = 0;
    while k < total
        invariant
            k <= total,
            indices@ == Set::new(|x: usize| x < k),
            indices@.finite(),
            indices@.len() == k,
        decreases total - k,
    {
        assert(!indices@.contains(k));
        indices.insert(k);
        k = k + 1;
        assert(indices@ =~= Set::new(|x: usize| x < k));
    }
    let ghost keys = spec_hash_keys_iter(&indices).remaining();
    let mut order: Vec<usize> = Vec::new();
    for x in it: indices.iter()
        invariant
            it.seq() == keys,
            order@ =~= it.seq().take(it.index()).unref(),
    {
        order.push(*x);
    }
    proof {
        assert(order@ =~= keys.unref());
        assert forall|i: int| 0 <= i < order@.len() implies #[trigger] order@[i] < n * n by {
            assert(keys.unref().to_set().contains(order@[i]));
        }
    }
    order
}

} // verus!

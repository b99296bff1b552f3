use sudoku_engine::{generate, is_valid, solve_sudoku, verify, BoardSize};

fn valid_rows() -> Vec<Vec<u8>> {
    vec![
        vec![1, 2, 6, 4, 3, 7, 5, 9, 8],
        vec![9, 4, 3, 6, 5, 8, 1, 2, 7],
        vec![7, 8, 5, 2, 1, 9, 3, 4, 6],
        vec![8, 6, 7, 3, 9, 2, 4, 5, 1],
        vec![3, 9, 4, 5, 7, 1, 8, 6, 2],
        vec![5, 1, 2, 8, 4, 6, 7, 3, 9],
        vec![6, 5, 1, 7, 2, 4, 9, 8, 3],
        vec![2, 3, 9, 1, 8, 5, 6, 7, 4],
        vec![4, 7, 8, 9, 6, 3, 2, 1, 5],
    ]
}

fn is_permutation(values: &[u8], n: usize) -> bool {
    let mut seen = vec![false; n + 1];
    for &v in values {
        let v = v as usize;
        if v == 0 || v > n || seen[v] {
            return false;
        }
        seen[v] = true;
    }
    values.len() == n
}

fn every_unit_is_permutation(g: &Vec<Vec<u8>>) -> bool {
    let n = g.len();
    let b = (1..=n).find(|b| b * b == n).unwrap();
    for i in 0..n {
        let row: Vec<u8> = g[i].clone();
        let column: Vec<u8> = (0..n).map(|r| g[r][i]).collect();
        let boxed: Vec<u8> = (0..n).map(|k| g[(i / b) * b + k / b][(i % b) * b + k % b]).collect();
        if !is_permutation(&row, n) || !is_permutation(&column, n) || !is_permutation(&boxed, n) {
            return false;
        }
    }
    true
}

#[test]
fn test_valid_sudoku() {
    assert!(verify(&vec![
        vec![1, 2, 6, 4, 3, 7, 5, 9, 8],
        vec![9, 4, 3, 6, 5, 8, 1, 2, 7],
        vec![7, 8, 5, 2, 1, 9, 3, 4, 6],
        vec![8, 6, 7, 3, 9, 2, 4, 5, 1],
        vec![3, 9, 4, 5, 7, 1, 8, 6, 2],
        vec![5, 1, 2, 8, 4, 6, 7, 3, 9],
        vec![6, 5, 1, 7, 2, 4, 9, 8, 3],
        vec![2, 3, 9, 1, 8, 5, 6, 7, 4],
        vec![4, 7, 8, 9, 6, 3, 2, 1, 5],
    ]));
}

#[test]
fn test_invalid_sudoku() {
    assert!(!verify(&vec![
        vec![1, 2, 6, 4, 3, 7, 5, 9, 8],
        vec![9, 4, 3, 6, 5, 8, 1, 2, 7],
        vec![7, 8, 5, 2, 1, 9, 3, 4, 6],
        vec![8, 6, 7, 3, 9, 2, 4, 5, 1],
        vec![3, 9, 4, 5, 7, 1, 8, 6, 2],
        vec![5, 1, 2, 8, 4, 6, 7, 3, 9],
        vec![6, 5, 1, 7, 2, 4, 9, 8, 3],
        vec![2, 3, 9, 1, 8, 5, 6, 7, 4],
        vec![4, 4, 4, 4, 4, 4, 4, 4, 4],
    ]));
    assert!(!verify(&vec![
        vec![1, 2, 6, 4, 3, 7, 5, 9, 8],
        vec![9, 4, 3, 6, 5, 8, 1, 2, 7],
        vec![7, 8, 5, 2, 1, 9, 3, 4, 6],
        vec![8, 6, 7, 3, 9, 2, 4, 5, 1],
        vec![3, 9, 4, 5, 7, 1, 8, 6, 2],
        vec![5, 1, 2, 8, 4, 6, 7, 3, 9],
        vec![6, 5, 1, 7, 2, 4, 9, 8, 3],
        vec![2, 3, 9, 1, 8, 5, 6, 7, 4],
        vec![4, 5, 6, 7, 8, 9, 1, 2, 3],
    ]));
    assert!(!verify(&vec![
        vec![1, 2, 6, 4, 3, 7, 5, 9, 8],
        vec![9, 4, 3, 6, 5, 8, 1, 2, 7],
        vec![7, 8, 5, 2, 1, 9, 3, 4, 6],
        vec![8, 6, 7, 3, 9, 2, 4, 5, 1],
        vec![3, 9, 4, 5, 7, 1, 8, 6, 2],
        vec![5, 1, 2, 8, 4, 6, 7, 3, 9],
        vec![6, 5, 1, 7, 2, 4, 9, 8, 3],
        vec![2, 3, 9, 1, 8, 5, 6, 7, 4],
        vec![4, 7, 8, 9, 6, 1, 2, 1, 5],
    ]));
}

#[test]
fn test_4x4_sudoku() {
    let sudoku = generate(BoardSize::Four);
    assert!(verify(&sudoku));
}

#[test]
fn test_9x9_sudoku() {
    let sudoku = generate(BoardSize::Nine);
    assert!(verify(&sudoku));
}

#[test]
fn test_16x16_sudoku() {
    let sudoku = generate(BoardSize::Sixteen);
    assert!(verify(&sudoku));
}

#[test]
fn solved_grids_hold_each_value_once_per_unit() {
    for (size, n) in [(BoardSize::Four, 4), (BoardSize::Nine, 9), (BoardSize::Sixteen, 16)] {
        let g = generate(size);
        assert_eq!(g.len(), n);
        assert!(g.iter().all(|row| row.len() == n));
        assert!(every_unit_is_permutation(&g));
        assert!(verify(&g));
    }
}

#[test]
fn clash_inside_a_box_only_is_found() {
    // Row and column stay clean; the two 1s share the top-left box.
    let mut g = vec![vec![0u8; 4]; 4];
    g[0][0] = 1;
    g[1][1] = 1;
    assert!(!verify(&g));
    g[1][1] = 0;
    g[2][3] = 1;
    assert!(verify(&g));
}

#[test]
fn blanks_never_clash() {
    let g = vec![vec![0u8; 9]; 9];
    assert!(verify(&g));
    let mut partial = valid_rows();
    partial[0][0] = 0;
    partial[0][1] = 0;
    partial[4][4] = 0;
    assert!(verify(&partial));
}

#[test]
fn is_valid_checks_row_column_and_box() {
    let mut g = vec![vec![0u8; 4]; 4];
    g[0][3] = 2;
    g[3][1] = 3;
    g[1][0] = 4;
    assert!(!is_valid(&g, 2, 0, 0, 2));
    assert!(!is_valid(&g, 2, 0, 1, 3));
    assert!(!is_valid(&g, 2, 0, 1, 4));
    assert!(is_valid(&g, 2, 0, 0, 1));
    assert!(is_valid(&g, 2, 0, 0, 0));
    // A cell's own value does not count against it.
    assert!(is_valid(&g, 2, 0, 3, 2));
}

#[test]
fn solver_keeps_given_cells() {
    let mut g = valid_rows();
    for r in 0..9 {
        for c in 0..9 {
            if (r * 9 + c) % 3 != 0 {
                g[r][c] = 0;
            }
        }
    }
    let given = g.clone();
    assert!(solve_sudoku(&mut g));
    assert!(every_unit_is_permutation(&g));
    for r in 0..9 {
        for c in 0..9 {
            if given[r][c] != 0 {
                assert_eq!(g[r][c], given[r][c]);
            }
        }
    }
}

#[test]
fn solver_refuses_a_clash_and_leaves_grid_alone() {
    let mut g = vec![vec![0u8; 4]; 4];
    g[0][0] = 1;
    g[0][2] = 1;
    let before = g.clone();
    assert!(!solve_sudoku(&mut g));
    assert_eq!(g, before);
}

#[test]
fn solver_refuses_an_unfinishable_grid() {
    // No clash yet, but the last cell of the first row has no value left.
    let mut g = vec![vec![0u8; 4]; 4];
    g[0][0] = 1;
    g[0][1] = 2;
    g[0][2] = 3;
    g[1][3] = 4;
    let before = g.clone();
    assert!(!solve_sudoku(&mut g));
    assert_eq!(g, before);
}

#[test]
fn solver_refuses_out_of_range_values() {
    let mut g = vec![vec![0u8; 4]; 4];
    g[2][2] = 5;
    assert!(!solve_sudoku(&mut g));
}

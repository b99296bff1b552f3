use sudoku_engine::{apply_difficulty, generate, removal_order, verify, BoardSize, Difficulty, Error, Sudoku};

const LEVELS: [Difficulty; 6] = [
    Difficulty::Beginner,
    Difficulty::Easy,
    Difficulty::Medium,
    Difficulty::Hard,
    Difficulty::Extreme,
    Difficulty::Impossible,
];

fn zeros(g: &Vec<Vec<u8>>) -> usize {
    g.iter().map(|row| row.iter().filter(|v| **v == 0).count()).sum()
}

fn first_starting_cell(s: &Sudoku) -> (usize, usize) {
    for r in 0..s.play.len() {
        for c in 0..s.play.len() {
            if s.play[r][c] != 0 {
                return (r, c);
            }
        }
    }
    panic!("no starting cell");
}

fn first_open_cell(s: &Sudoku) -> (usize, usize) {
    for r in 0..s.play.len() {
        for c in 0..s.play.len() {
            if s.play[r][c] == 0 {
                return (r, c);
            }
        }
    }
    panic!("no open cell");
}

#[test]
fn beginner_nine_has_twelve_blanks_and_verifies() {
    let s = Sudoku::generate(BoardSize::Nine, Difficulty::Beginner);
    assert_eq!(s.play.len(), 9);
    assert_eq!(zeros(&s.play), 12);
    assert!(s.verify());
    assert_eq!(s.difficulty, Difficulty::Beginner);
}

#[test]
fn impossible_four_has_twelve_blanks() {
    let s = Sudoku::generate(BoardSize::Four, Difficulty::Impossible);
    assert_eq!(s.play.len(), 4);
    assert_eq!(zeros(&s.play), 12);
}

#[test]
fn blank_count_follows_percentage() {
    let expected = [
        (BoardSize::Four, [2, 4, 7, 9, 10, 12]),
        (BoardSize::Nine, [12, 24, 36, 46, 53, 63]),
        (BoardSize::Sixteen, [38, 76, 115, 145, 168, 202]),
    ];
    for (size, counts) in expected {
        for (level, count) in LEVELS.iter().zip(counts) {
            let s = Sudoku::generate(size, *level);
            assert_eq!(zeros(&s.play), count);
            assert!(s.verify());
        }
    }
}

#[test]
fn percentages_of_levels() {
    let got: Vec<usize> = LEVELS.iter().map(|d| d.percentage()).collect();
    assert_eq!(got, vec![15, 30, 45, 57, 66, 79]);
}

#[test]
fn starting_cells_are_the_filled_ones() {
    let s = Sudoku::generate(BoardSize::Nine, Difficulty::Medium);
    for r in 0..9 {
        for c in 0..9 {
            assert_eq!(s.is_starting(r, c), s.play[r][c] != 0);
        }
    }
    assert!(!s.is_starting(9, 0));
}

#[test]
fn add_number_ten_on_nine_is_invalid_number() {
    let mut s = Sudoku::generate(BoardSize::Nine, Difficulty::Medium);
    let before = s.play.clone();
    assert_eq!(s.add_number(10, 1, 1), Err(Error::InvalidNumber));
    assert_eq!(s.play, before);
}

#[test]
fn add_number_zero_is_invalid_number() {
    let mut s = Sudoku::generate(BoardSize::Four, Difficulty::Easy);
    let (r, c) = first_open_cell(&s);
    assert_eq!(s.add_number(0, r, c), Err(Error::InvalidNumber));
}

#[test]
fn add_number_one_past_edge_fails() {
    let mut s = Sudoku::generate(BoardSize::Nine, Difficulty::Hard);
    let before = s.play.clone();
    assert_eq!(s.add_number(10, 0, 0), Err(Error::InvalidNumber));
    assert_eq!(s.add_number(1, 10, 0), Err(Error::InvalidCoordinate));
    assert_eq!(s.add_number(1, 0, 10), Err(Error::InvalidCoordinate));
    assert_eq!(s.add_number(1, 9, 0), Err(Error::InvalidCoordinate));
    assert_eq!(s.play, before);
}

#[test]
fn add_number_on_starting_cell_is_refused() {
    let mut s = Sudoku::generate(BoardSize::Nine, Difficulty::Beginner);
    let (r, c) = first_starting_cell(&s);
    let before = s.play.clone();
    for v in 1..=9u8 {
        assert_eq!(s.add_number(v, r, c), Err(Error::StartingNumbers));
    }
    assert_eq!(s.play, before);
}

#[test]
fn remove_number_errors() {
    let mut s = Sudoku::generate(BoardSize::Four, Difficulty::Medium);
    let (r, c) = first_starting_cell(&s);
    assert_eq!(s.remove_number(r, c), Err(Error::StartingNumbers));
    assert_eq!(s.remove_number(4, 0), Err(Error::InvalidCoordinate));
    assert_eq!(s.remove_number(0, 5), Err(Error::InvalidCoordinate));
}

#[test]
fn add_then_remove_restores_blank() {
    let mut s = Sudoku::generate(BoardSize::Nine, Difficulty::Extreme);
    let (r, c) = first_open_cell(&s);
    let before = s.play.clone();
    assert_eq!(s.add_number(7, r, c), Ok(()));
    assert_eq!(s.play[r][c], 7);
    assert_eq!(s.remove_number(r, c), Ok(()));
    assert_eq!(s.play, before);
    assert_eq!(s.play[r][c], 0);
}

#[test]
fn filled_blank_stays_editable() {
    let mut s = Sudoku::generate(BoardSize::Four, Difficulty::Hard);
    let (r, c) = first_open_cell(&s);
    assert_eq!(s.add_number(3, r, c), Ok(()));
    assert!(!s.is_starting(r, c));
    assert_eq!(s.add_number(4, r, c), Ok(()));
    assert_eq!(s.play[r][c], 4);
}

#[test]
fn add_number_does_not_check_the_rule() {
    let mut s = Sudoku::generate(BoardSize::Four, Difficulty::Impossible);
    let (r, c) = first_open_cell(&s);
    let clash = (0..4).map(|k| s.play[r][k]).find(|v| *v != 0);
    if let Some(v) = clash {
        assert_eq!(s.add_number(v, r, c), Ok(()));
        assert!(!s.verify());
    }
}

#[test]
fn removal_order_numbers_every_cell_once() {
    let order = removal_order(9);
    let mut sorted = order.clone();
    sorted.sort();
    assert_eq!(sorted, (0..81).collect::<Vec<usize>>());
}

#[test]
fn apply_difficulty_blanks_the_first_cells_of_the_order() {
    let mut g = generate(BoardSize::Four);
    let solved = g.clone();
    let order: Vec<usize> = (0..16).rev().collect();
    apply_difficulty(&mut g, Difficulty::Medium, &order);
    // 16 * 45 / 100 = 7 cells: the last seven in row-major order.
    for k in 0..16 {
        let (r, c) = (k / 4, k % 4);
        if k >= 9 {
            assert_eq!(g[r][c], 0);
        } else {
            assert_eq!(g[r][c], solved[r][c]);
        }
    }
}

#[test]
fn generate_with_order_uses_the_order() {
    let order: Vec<usize> = (0..81).collect();
    let s = Sudoku::generate_with_order(BoardSize::Nine, Difficulty::Beginner, &order);
    // The first twelve cells in row-major order are blank.
    for k in 0..81 {
        let (r, c) = (k / 9, k % 9);
        assert_eq!(s.play[r][c] == 0, k < 12);
        assert_eq!(s.is_starting(r, c), k >= 12);
    }
    assert!(s.verify());
    assert!(verify(&s.play));
}

#[test]
fn starting_cells_survive_edits() {
    let mut s = Sudoku::generate(BoardSize::Four, Difficulty::Medium);
    let (r, c) = first_starting_cell(&s);
    let value = s.play[r][c];
    assert!(s.starting.contains(r, c));
    assert_eq!(s.remove_number(r, c), Err(Error::StartingNumbers));
    assert_eq!(s.play[r][c], value);
    let (r2, c2) = first_open_cell(&s);
    assert!(!s.starting.contains(r2, c2));
    assert_eq!(s.add_number(1, r2, c2), Ok(()));
    assert!(!s.starting.contains(r2, c2));
    assert_eq!(s.play[r][c], value);
    assert!(!s.starting.contains(4, 0));
}

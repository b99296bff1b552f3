use sudoku_engine::{draw, sudoku_as_string, BoardSize, CliBoardSize, CliDifficulty, Difficulty, Error, Style};

#[test]
fn difficulty_tokens_parse() {
    let cases = [
        ("beginner", Difficulty::Beginner),
        ("easy", Difficulty::Easy),
        ("medium", Difficulty::Medium),
        ("hard", Difficulty::Hard),
        ("extreme", Difficulty::Extreme),
        ("impossible", Difficulty::Impossible),
    ];
    for (text, level) in cases {
        assert_eq!(text.parse::<Difficulty>(), Ok(level));
    }
}

#[test]
fn other_difficulty_text_is_carried_back() {
    for text in ["Easy", "", "hard ", "EXTREME", "medium!", "4"] {
        assert_eq!(
            text.parse::<Difficulty>(),
            Err(Error::UnkownDifficulty(text.to_string()))
        );
    }
}

#[test]
fn board_size_tokens_parse() {
    assert_eq!("4".parse::<BoardSize>(), Ok(BoardSize::Four));
    assert_eq!("9".parse::<BoardSize>(), Ok(BoardSize::Nine));
    assert_eq!("16".parse::<BoardSize>(), Ok(BoardSize::Sixteen));
    for text in ["25", "nine", "", " 9", "09"] {
        assert_eq!(
            text.parse::<BoardSize>(),
            Err(Error::UknownBoardSize(text.to_string()))
        );
    }
}

#[test]
fn board_size_edges() {
    assert_eq!(BoardSize::Four.size(), 4);
    assert_eq!(BoardSize::Nine.size(), 9);
    assert_eq!(BoardSize::Sixteen.size(), 16);
    assert_eq!(BoardSize::Four.size_sqrt(), 2);
    assert_eq!(BoardSize::Nine.size_sqrt(), 3);
    assert_eq!(BoardSize::Sixteen.size_sqrt(), 4);
}

#[test]
fn defaults_are_medium_and_nine() {
    assert_eq!(Difficulty::default(), Difficulty::Medium);
    assert_eq!(BoardSize::default(), BoardSize::Nine);
    assert!(Difficulty::Beginner < Difficulty::Impossible);
}

#[test]
fn command_line_selectors_convert() {
    assert_eq!(Difficulty::from(CliDifficulty::Beginner), Difficulty::Beginner);
    assert_eq!(Difficulty::from(CliDifficulty::Easy), Difficulty::Easy);
    assert_eq!(Difficulty::from(CliDifficulty::Medium), Difficulty::Medium);
    assert_eq!(Difficulty::from(CliDifficulty::Hard), Difficulty::Hard);
    assert_eq!(Difficulty::from(CliDifficulty::Extreme), Difficulty::Extreme);
    assert_eq!(Difficulty::from(CliDifficulty::Impossible), Difficulty::Impossible);
    assert_eq!(BoardSize::from(CliBoardSize::Four), BoardSize::Four);
    assert_eq!(BoardSize::from(CliBoardSize::Nine), BoardSize::Nine);
    assert_eq!(BoardSize::from(CliBoardSize::Sixteen), BoardSize::Sixteen);
}

fn small_grid() -> Vec<Vec<u8>> {
    vec![vec![1, 2, 3, 4], vec![3, 4, 1, 2], vec![2, 1, 4, 3], vec![4, 3, 2, 0]]
}

#[test]
fn four_by_four_as_string() {
    assert_eq!(
        sudoku_as_string(&small_grid()),
        " - - - - - -\n 1 2 | 3 4 |\n 3 4 | 1 2 |\n - - - - - -\n 2 1 | 4 3 |\n 4 3 | 2 _ |\n - - - - - -\n"
    );
}

#[test]
fn four_by_four_compact() {
    assert_eq!(
        draw(&small_grid(), Style::Compact),
        "------------\n 1 2 | 3 4 |\n 3 4 | 1 2 |\n------------\n 2 1 | 4 3 |\n 4 3 | 2 _ |\n------------\n"
    );
}

#[test]
fn sixteen_by_sixteen_pads_numbers() {
    let n = 16;
    let b = 4;
    let mut g: Vec<Vec<u8>> = (0..n)
        .map(|r| (0..n).map(|c| ((b * (r % b) + r / b + c) % n + 1) as u8).collect())
        .collect();
    g[15][15] = 0;
    let text = sudoku_as_string(&g);
    let lines: Vec<&str> = text.split('\n').collect();
    assert_eq!(lines[0], " --".repeat(19));
    assert_eq!(lines[1], "  1  2  3  4 |  5  6  7  8 |  9 10 11 12 | 13 14 15 16 |");
    assert_eq!(lines[lines.len() - 3], " 16  1  2  3 |  4  5  6  7 |  8  9 10 11 | 12 13 14 __ |");
    assert_eq!(text.len(), 1202);
}

#[test]
fn empty_grid_draws_one_rule() {
    let g: Vec<Vec<u8>> = Vec::new();
    assert_eq!(sudoku_as_string(&g), "\n");
}

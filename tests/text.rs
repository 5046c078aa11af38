use sudoku::Sudoku;

#[test]
fn parses_digits_and_dots_skipping_other_characters() {
    let text = "4 . . | . . . | 8 . 5\n".to_string() + &"0".repeat(72);
    let s = Sudoku::try_from(&text).unwrap();
    assert_eq!(&s.0[..9], &[4, 0, 0, 0, 0, 0, 8, 0, 5]);
    assert!(s.0[9..].iter().all(|&d| d == 0));
}

#[test]
fn parse_reads_only_first_81_cells() {
    let text = "1".repeat(81) + "2222";
    let s = Sudoku::try_from(&text).unwrap();
    assert_eq!(s.0, [1u8; 81]);
}

#[test]
fn short_grid_is_malformed() {
    assert_eq!(Sudoku::try_from(&".".repeat(80)).err(), Some("malformed grid"));
    assert_eq!(Sudoku::try_from("").err(), Some("malformed grid"));
    assert_eq!(Sudoku::try_from("abc 123").err(), Some("malformed grid"));
}

#[test]
fn renders_boxes_and_rules() {
    let mut g = [0u8; 81];
    g[0] = 1;
    g[80] = 9;
    let text = Sudoku(g).to_text();
    let lines: Vec<&str> = text.lines().collect();
    assert_eq!(lines.len(), 13);
    assert_eq!(lines[0], "+------+------+------+");
    assert_eq!(lines[1], "|1 . . |. . . |. . . |");
    assert_eq!(lines[2], "|. . . |. . . |. . . |");
    assert_eq!(lines[4], "+------+------+------+");
    assert_eq!(lines[11], "|. . . |. . . |. . 9 |");
    assert_eq!(lines[12], "+------+------+------+");
    assert!(text.ends_with("+------+------+------+\n"));
}

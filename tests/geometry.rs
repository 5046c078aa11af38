use sudoku::Sudoku;

#[test]
fn row_of_cell() {
    assert_eq!(Sudoku::row(0), vec![1, 2, 3, 4, 5, 6, 7, 8]);
    assert_eq!(Sudoku::row(40), vec![36, 37, 38, 39, 41, 42, 43, 44]);
}

#[test]
fn column_of_cell() {
    assert_eq!(Sudoku::column(0), vec![9, 18, 27, 36, 45, 54, 63, 72]);
    assert_eq!(Sudoku::column(80), vec![8, 17, 26, 35, 44, 53, 62, 71]);
}

#[test]
fn square_of_cell() {
    assert_eq!(Sudoku::square(0), vec![1, 2, 9, 10, 11, 18, 19, 20]);
    assert_eq!(Sudoku::square(40), vec![30, 31, 32, 39, 41, 48, 49, 50]);
    assert_eq!(Sudoku::square(80), vec![60, 61, 62, 69, 70, 71, 78, 79]);
}

#[test]
fn units_are_row_column_square() {
    let u = Sudoku::units(13);
    assert_eq!(u.len(), 3);
    assert_eq!(u[0], Sudoku::row(13));
    assert_eq!(u[1], Sudoku::column(13));
    assert_eq!(u[2], Sudoku::square(13));
}

#[test]
fn peers_of_corner_cell() {
    let p = Sudoku::peers(0);
    assert_eq!(p.len(), 24);
    for c in 1..9u8 {
        assert!(p.contains(&c));
    }
    for r in 1..9u8 {
        assert!(p.contains(&(r * 9)));
    }
    for c in [1u8, 2, 9, 10, 11, 18, 19, 20] {
        assert!(p.contains(&c));
    }
    assert!(!p.contains(&0));
    assert!(!p.contains(&30));
    let mut q = p.clone();
    q.sort();
    q.dedup();
    assert_eq!(q.len(), 20);
}

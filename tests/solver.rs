use sudoku::{Possible, Sudoku, Values};

const EASY: &str =
    "003020600900305001001806400008102900700000008006708200002609500800203009005010300";
const EASY_SOLVED: &str =
    "483921657967345821251876493548132976729564138136798245372689514814253769695417382";
const HARD: &str =
    "4.....8.5.3..........7......2.....6.....8.4......1.......6.3.7.5..2.....1.4......";

fn digits(s: &str) -> [u8; 81] {
    Sudoku::try_from(s).unwrap().0
}

fn solved_values(s: &str) -> Values {
    Values(digits(s).iter().map(|&d| Possible(1 << (d - 1))).collect())
}

fn is_valid_solution(g: &[u8; 81]) -> bool {
    for i in 0..81u8 {
        let d = g[i as usize];
        if d < 1 || d > 9 {
            return false;
        }
        for p in Sudoku::peers(i) {
            if g[p as usize] == d {
                return false;
            }
        }
    }
    true
}

#[test]
fn solves_easy_puzzle_exactly() {
    let mut s = Sudoku::try_from(EASY).unwrap();
    assert!(s.solve());
    assert_eq!(s.0, digits(EASY_SOLVED));
}

#[test]
fn solves_hard_puzzle_keeping_givens() {
    let given = digits(HARD);
    let mut s = Sudoku(given);
    assert!(s.solve());
    assert!(is_valid_solution(&s.0));
    for i in 0..81 {
        if given[i] != 0 {
            assert_eq!(s.0[i], given[i]);
        }
    }
}

#[test]
fn fills_single_blank_forced_by_row() {
    let mut g = digits(EASY_SOLVED);
    g[0] = 0;
    let mut s = Sudoku(g);
    assert!(s.solve());
    assert_eq!(s.0[0], 4);
    assert_eq!(s.0, digits(EASY_SOLVED));
}

#[test]
fn contradictory_puzzle_fails_and_is_kept() {
    let mut g = [0u8; 81];
    g[0] = 5;
    g[1] = 5;
    let mut s = Sudoku(g);
    assert!(!s.solve());
    assert_eq!(s.0, g);
}

#[test]
fn unsolvable_puzzle_fails_and_is_kept() {
    // Row 0 leaves only 9 for cell 8, but column 8 already holds a 9.
    let mut g = [0u8; 81];
    for c in 0..8 {
        g[c] = (c + 1) as u8;
    }
    g[80] = 9;
    let mut s = Sudoku(g);
    assert!(!s.solve());
    assert_eq!(s.0, g);
}

#[test]
fn empty_puzzle_gets_a_valid_solution() {
    let mut s = Sudoku([0u8; 81]);
    assert!(s.solve());
    assert!(is_valid_solution(&s.0));
}

#[test]
fn eliminate_twice_equals_once() {
    let once = Values::new().eliminate(5, 0).unwrap();
    let twice = Values::new().eliminate(5, 0).unwrap().eliminate(5, 0).unwrap();
    assert_eq!(once.0, twice.0);
    assert!(!once.0[0].contains(5));
    assert_eq!(once.0[0].len(), 8);
}

#[test]
fn eliminate_last_candidate_fails() {
    let mut v = Values::new();
    v.0[0] = Possible(0x10);
    assert!(v.eliminate(5, 0).is_none());
}

#[test]
fn eliminate_absent_digit_keeps_state() {
    let mut v = Values::new();
    v.0[3] = Possible(0x3);
    let before = v.0.clone();
    let after = v.eliminate(9, 3).unwrap();
    assert_eq!(after.0, before);
}

#[test]
fn assign_clears_digit_from_peers() {
    let v = Values::new().assign(7, 40).unwrap();
    assert_eq!(v.0[40], Possible(0x40));
    for p in Sudoku::peers(40) {
        assert!(!v.0[p as usize].contains(7));
    }
    assert!(v.0[0].contains(7));
}

#[test]
fn search_returns_solved_grid_unchanged() {
    let v = solved_values(EASY_SOLVED);
    let before = v.0.clone();
    let r = v.search().unwrap();
    assert_eq!(r.0, before);
}

#[test]
fn search_with_empty_cell_fails() {
    let mut v = solved_values(EASY_SOLVED);
    v.0[17] = Possible(0);
    assert!(v.search().is_none());
    let mut w = Values::new();
    w.0[0] = Possible(0);
    assert!(w.search().is_none());
}

#[test]
fn assign_with_empty_cell_elsewhere_fails() {
    let mut v = Values::new();
    v.0[80] = Possible(0);
    assert!(v.assign(1, 0).is_none());
}

#[test]
fn eliminate_with_empty_cell_elsewhere_fails() {
    let mut v = Values::new();
    v.0[80] = Possible(0);
    assert!(v.eliminate(5, 0).is_none());
    let mut w = Values::new();
    w.0[80] = Possible(0);
    w.0[0] = Possible(0x3);
    assert!(w.eliminate(9, 0).is_none());
}

#[test]
fn assign_of_absent_digit_fails() {
    let mut v = Values::new();
    v.0[10] = Possible(0x3);
    assert!(v.assign(5, 10).is_none());
    let mut w = Values::new();
    w.0[10] = Possible(0);
    assert!(w.assign(5, 10).is_none());
}

#[test]
fn assign_twice_equals_once() {
    let once = Values::new().assign(4, 30).unwrap();
    let twice = Values::new().assign(4, 30).unwrap().assign(4, 30).unwrap();
    assert_eq!(once.0, twice.0);
    assert_eq!(once.0[30], Possible(0x8));
}

#[test]
fn eliminate_forces_digit_into_last_place_of_row() {
    // Take 6 out of every cell of row 0 but cell 8, one by one.
    let mut v = Values::new();
    for c in 0..7 {
        v = v.eliminate(6, c).unwrap();
        assert!(v.0[8].contains(6));
        assert_eq!(v.0[8].len(), 9);
    }
    v = v.eliminate(6, 7).unwrap();
    assert_eq!(v.0[8], Possible(0x20));
    for p in Sudoku::peers(8) {
        assert!(!v.0[p as usize].contains(6));
    }
}

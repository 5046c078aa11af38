use sudoku::Possible;

#[test]
fn test_possible() {
    assert_eq!(Possible(0x3).len(), 2);
    assert_eq!(Possible(0x6).len(), 2);
    assert_eq!(Possible(0x1).len(), 1);
    assert_eq!(Possible::new().len(), 9);

    assert_eq!(Possible(0x6).contains(3), true);
    assert_eq!(Possible(0x6).contains(1), false);
    assert_eq!(Possible(0x8).contains(8), false);

    assert_eq!(Possible(0x8).remove(4), Possible(0x0));
    assert_eq!(Possible(0xF).remove(4), Possible(0x7));
}

#[test]
fn remove_of_absent_digit_keeps_set() {
    assert_eq!(Possible(0x6).remove(1), Possible(0x6));
    assert_eq!(Possible(0x0).remove(9), Possible(0x0));
    assert_eq!(Possible::new().remove(9), Possible(0xFF));
}

#[test]
fn values_are_ascending_candidates() {
    assert_eq!(Possible(0x145).values(), vec![1, 3, 7, 9]);
    assert_eq!(Possible::new().values(), vec![1, 2, 3, 4, 5, 6, 7, 8, 9]);
    assert_eq!(Possible(0x0).values(), Vec::<u8>::new());
}

#[test]
fn n_gives_sole_candidate_or_zero() {
    assert_eq!(Possible(0x10).n(), 5);
    assert_eq!(Possible(0x100).n(), 9);
    assert_eq!(Possible(0x0).n(), 0);
    assert_eq!(Possible(0x180).n(), 0);
    assert_eq!(Possible::new().n(), 0);
}

#[test]
fn is_empty_only_without_candidates() {
    assert!(Possible(0x0).is_empty());
    assert!(!Possible(0x100).is_empty());
    assert!(!Possible::new().is_empty());
    assert!(Possible(0x1).remove(1).is_empty());
}

#[test]
fn len_of_empty_and_full() {
    assert_eq!(Possible(0x0).len(), 0);
    assert_eq!(Possible(0x1FF).len(), 9);
    assert_eq!(Possible(0x100).len(), 1);
}

use sudoku::gameboard::Gameboard;

#[test]
fn test_invalid_col() {
    let mut gb = Gameboard::new();
    let mut invalid = vec![false; 81];

    gb.set(0, 0, 1);
    gb.set(1, 0, 1);
    invalid[0] = true;
    invalid[9] = true;
    assert_eq!(gb.search_invalid_position_col(), invalid);
}

#[test]
fn test_invalid_row() {
    let mut gb = Gameboard::new();
    let mut invalid = vec![false; 81];

    gb.set(0, 0, 1);
    gb.set(0, 1, 1);
    invalid[0] = true;
    invalid[1] = true;
    assert_eq!(gb.search_invalid_position_row(), invalid);
}

#[test]
fn test_invalid_section() {
    let mut gb = Gameboard::new();
    let mut invalid = vec![false; 81];

    gb.set(0, 0, 1);
    gb.set(0, 1, 1);
    invalid[0] = true;
    invalid[1] = true;
    assert_eq!(gb.search_invalid_position_section(), invalid);
}

#[test]
fn test_invalid_in() {
    let mut gb = Gameboard::new();

    gb.set(0, 0, 1);

    let area_index = vec![(0, 0); 9];
    assert_eq!(gb.search_invalid_position_in(area_index), vec![(0, 0); 9]);
}

#[test]
fn test_new_board_is_blank() {
    let gb = Gameboard::new();
    for row in 0..9 {
        for col in 0..9 {
            assert_eq!(gb.get(row, col), 0);
            assert!(!gb.is_fixed(row, col));
            assert_eq!(gb.char(row, col), None);
        }
    }
    assert!(!gb.invalid());
    assert!(!gb.finished());
}

#[test]
fn test_set_get_char() {
    let mut gb = Gameboard::new();
    gb.set(4, 7, 3);
    assert_eq!(gb.get(4, 7), 3);
    assert_eq!(gb.char(4, 7), Some('3'));
    gb.set(4, 7, 0);
    assert_eq!(gb.get(4, 7), 0);
    assert_eq!(gb.char(4, 7), None);
}

#[test]
fn test_reset_clears_cells() {
    let mut gb = Gameboard::new();
    gb.set(2, 2, 9);
    gb.set(8, 0, 1);
    gb.reset();
    for row in 0..9 {
        for col in 0..9 {
            assert_eq!(gb.get(row, col), 0);
        }
    }
}

#[test]
fn test_row_conflict_flags_both_cells() {
    let mut gb = Gameboard::new();
    gb.set(0, 0, 5);
    gb.set(0, 1, 5);
    assert!(gb.invalid());
    assert!(gb.is_invalid(0, 0));
    assert!(gb.is_invalid(0, 1));

    let mut cleared_first = Gameboard::new();
    cleared_first.set(0, 0, 5);
    cleared_first.set(0, 1, 5);
    cleared_first.set(0, 0, 0);
    assert!(!cleared_first.invalid());

    gb.set(0, 1, 0);
    assert!(!gb.invalid());
}

#[test]
fn test_distant_equal_digits_are_no_conflict() {
    let mut gb = Gameboard::new();
    gb.set(0, 0, 5);
    gb.set(3, 3, 5);
    assert!(!gb.invalid());
    assert!(!gb.is_invalid(0, 0));
    assert!(!gb.is_invalid(3, 3));
}

#[test]
fn test_fixed_cell_is_immutable_through_set() {
    let mut gb = Gameboard::new();
    gb.set(0, 0, 5);
    gb.set_readonly(0, 0, true);
    assert!(gb.is_fixed(0, 0));
    gb.set(0, 0, 7);
    assert_eq!(gb.get(0, 0), 5);
    gb.set(0, 0, 0);
    assert_eq!(gb.get(0, 0), 5);
    gb.set_readonly(0, 0, false);
    gb.set(0, 0, 7);
    assert_eq!(gb.get(0, 0), 7);
}

#[test]
fn test_column_conflict_in_one_section() {
    let mut gb = Gameboard::new();
    gb.set(0, 0, 4);
    gb.set(2, 0, 4);
    assert!(gb.invalid());
    assert!(gb.is_invalid(0, 0));
    assert!(gb.is_invalid(2, 0));
}

#[test]
fn test_section_conflict_without_shared_row_or_column() {
    let mut gb = Gameboard::new();
    gb.set(0, 0, 8);
    gb.set(1, 1, 8);
    assert!(gb.invalid());
    assert!(gb.is_invalid(0, 0));
    assert!(gb.is_invalid(1, 1));
}

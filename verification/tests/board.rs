use sudoku::{SudokuBoard, SUDOKU_SIZE};

const ARRAY_SIZE: usize = SUDOKU_SIZE * SUDOKU_SIZE;

const TEST_SPARSE_ARRAY: [usize; ARRAY_SIZE] = [
    0, 0, 0, 0, 0, 0, 0, 9, 0, 9, 1, 0, 0, 0, 0, 0, 5, 0, 0, 0, 8, 0, 0, 2, 0, 0, 3, 0, 0, 5,
    0, 0, 9, 3, 0, 0, 0, 0, 0, 1, 3, 4, 0, 0, 0, 0, 0, 0, 0, 8, 5, 0, 0, 0, 0, 0, 0, 2, 0, 0,
    0, 0, 0, 3, 0, 0, 8, 0, 0, 0, 0, 0, 2, 4, 0, 0, 0, 0, 0, 8, 0,
];
const TEST_SOLUTION_ARRAY: [usize; ARRAY_SIZE] = [
    4, 7, 3, 5, 6, 8, 1, 9, 2, 9, 1, 2, 4, 7, 3, 6, 5, 8, 5, 6, 8, 9, 1, 2, 7, 4, 3, 7, 8, 5,
    6, 2, 9, 3, 1, 4, 6, 2, 9, 1, 3, 4, 8, 7, 5, 1, 3, 4, 7, 8, 5, 2, 6, 9, 8, 9, 6, 2, 4, 1,
    5, 3, 7, 3, 5, 7, 8, 9, 6, 4, 2, 1, 2, 4, 1, 3, 5, 7, 9, 8, 6,
];

const TEST_DUPLICATE_9S_INVALID: [usize; ARRAY_SIZE] = [
    4, 2, 3, 5, 6, 7, 1, 9, 0, 9, 1, 6, 4, 0, 0, 2, 5, 7, 5, 7, 8, 9, 0, 2, 0, 0, 3, 0, 0, 5,
    0, 2, 9, 3, 1, 0, 0, 0, 2, 1, 3, 4, 7, 0, 0, 0, 3, 4, 0, 8, 5, 0, 0, 0, 1, 6, 9, 2, 4, 3,
    0, 7, 0, 3, 9, 0, 8, 0, 6, 0, 4, 0, 2, 4, 0, 0, 0, 0, 6, 8, 0,
];

#[test]
fn test_load_sparse_array() {
    let board = SudokuBoard::from_array(TEST_SPARSE_ARRAY);
    assert!(board.is_valid());
    assert!(!board.is_complete());
}

#[test]
fn test_invalid_row() {
    let mut test_array = [0; ARRAY_SIZE];
    test_array[0] = 9;
    test_array[1] = 9;
    let board = SudokuBoard::from_array(test_array);
    assert!(!board.is_valid());
    assert!(!board.is_complete());
}

#[test]
fn test_invalid_col() {
    let mut test_array = [0; ARRAY_SIZE];
    test_array[0] = 9;
    test_array[9] = 9;
    let board = SudokuBoard::from_array(test_array);
    assert!(!board.is_valid());
    assert!(!board.is_complete());
}

#[test]
fn test_invalid_subgrid() {
    let mut test_array = [0; ARRAY_SIZE];
    test_array[1] = 5;
    test_array[9] = 5;
    let board = SudokuBoard::from_array(test_array);
    assert!(!board.is_valid());
    assert!(!board.is_complete());
}

#[test]
fn test_invalid_subgrid_9s() {
    let board = SudokuBoard::from_array(TEST_DUPLICATE_9S_INVALID);
    assert!(!board.is_valid());
    assert!(!board.is_complete());
}

#[test]
fn test_load_full_array() {
    let board = SudokuBoard::from_array(TEST_SOLUTION_ARRAY);
    assert!(board.is_valid());
    assert!(board.is_complete());
}

use sudoku::{SudokuBoard, Tile, SUDOKU_SIZE};

const ARRAY_SIZE: usize = SUDOKU_SIZE * SUDOKU_SIZE;

const SOLUTION: [usize; ARRAY_SIZE] = [
    4, 7, 3, 5, 6, 8, 1, 9, 2, 9, 1, 2, 4, 7, 3, 6, 5, 8, 5, 6, 8, 9, 1, 2, 7, 4, 3, 7, 8, 5,
    6, 2, 9, 3, 1, 4, 6, 2, 9, 1, 3, 4, 8, 7, 5, 1, 3, 4, 7, 8, 5, 2, 6, 9, 8, 9, 6, 2, 4, 1,
    5, 3, 7, 3, 5, 7, 8, 9, 6, 4, 2, 1, 2, 4, 1, 3, 5, 7, 9, 8, 6,
];

/// The candidates of the cell, `None` for a fixed cell.
fn open_at(board: &SudokuBoard, row: usize, col: usize) -> Option<Vec<usize>> {
    match board.get(row, col) {
        Tile::Collapsed(_) => None,
        Tile::Uncollapsed(domain) => Some(domain.get_valid()),
    }
}

/// Every cell of the board: its value, or its candidates.
fn snapshot(board: &SudokuBoard) -> Vec<Result<usize, Vec<usize>>> {
    let mut out = Vec::new();
    for row in 0..SUDOKU_SIZE {
        for col in 0..SUDOKU_SIZE {
            out.push(match board.get(row, col) {
                Tile::Collapsed(v) => Ok(v),
                Tile::Uncollapsed(domain) => Err(domain.get_valid()),
            });
        }
    }
    out
}

#[test]
fn generate_gives_the_empty_board() {
    let board = SudokuBoard::generate();
    assert!(board.is_valid());
    assert!(!board.is_complete());
    for row in 0..SUDOKU_SIZE {
        for col in 0..SUDOKU_SIZE {
            assert_eq!(open_at(&board, row, col), Some(vec![1, 2, 3, 4, 5, 6, 7, 8, 9]));
        }
    }
}

#[test]
fn from_array_fixes_the_givens() {
    let mut array = [0; ARRAY_SIZE];
    array[0] = 5;
    array[80] = 1;
    let board = SudokuBoard::from_array(array);
    assert!(matches!(board.get(0, 0), Tile::Collapsed(5)));
    assert!(matches!(board.get(8, 8), Tile::Collapsed(1)));
    assert!(matches!(board.get(4, 4), Tile::Uncollapsed(_)));
}

#[test]
fn from_array_propagates_the_givens() {
    let mut array = [0; ARRAY_SIZE];
    array[0] = 5;
    array[80] = 1;
    let board = SudokuBoard::from_array(array);
    let all = vec![1, 2, 3, 4, 5, 6, 7, 8, 9];
    let no_five = vec![1, 2, 3, 4, 6, 7, 8, 9];
    let no_one = vec![2, 3, 4, 5, 6, 7, 8, 9];
    let neither = vec![2, 3, 4, 6, 7, 8, 9];
    // row, column and subgrid of the 5
    assert_eq!(open_at(&board, 0, 5), Some(no_five.clone()));
    assert_eq!(open_at(&board, 6, 0), Some(no_five.clone()));
    assert_eq!(open_at(&board, 2, 2), Some(no_five));
    // row, column and subgrid of the 1
    assert_eq!(open_at(&board, 8, 3), Some(no_one.clone()));
    assert_eq!(open_at(&board, 3, 8), Some(no_one.clone()));
    assert_eq!(open_at(&board, 6, 6), Some(no_one));
    // peers of both
    assert_eq!(open_at(&board, 0, 8), Some(neither.clone()));
    assert_eq!(open_at(&board, 8, 0), Some(neither));
    // peers of neither
    assert_eq!(open_at(&board, 4, 4), Some(all));
}

#[test]
fn is_valid_assignment_checks_row_column_and_subgrid() {
    let mut array = [0; ARRAY_SIZE];
    array[4 * SUDOKU_SIZE + 4] = 7;
    let board = SudokuBoard::from_array(array);
    assert!(!board.is_valid_assignment(7, 4, 0));
    assert!(!board.is_valid_assignment(7, 0, 4));
    assert!(!board.is_valid_assignment(7, 3, 5));
    assert!(!board.is_valid_assignment(7, 4, 4));
    assert!(board.is_valid_assignment(7, 2, 5));
    assert!(board.is_valid_assignment(7, 0, 0));
    assert!(board.is_valid_assignment(6, 4, 0));
    assert!(board.is_valid_assignment(6, 4, 4));
}

#[test]
fn is_valid_assignment_of_a_value_no_cell_holds() {
    let board = SudokuBoard::from_array(SOLUTION);
    for row in 0..SUDOKU_SIZE {
        for col in 0..SUDOKU_SIZE {
            assert!(board.is_valid_assignment(0, row, col));
            assert!(board.is_valid_assignment(10, row, col));
            for val in 1..=SUDOKU_SIZE {
                assert!(!board.is_valid_assignment(val, row, col));
            }
        }
    }
}

#[test]
fn lowest_entropy_takes_the_last_of_the_fewest() {
    // every cell has nine candidates: the last cell wins
    let board = SudokuBoard::generate();
    assert_eq!(board.get_lowest_entropy(), (8, 8));

    // one given: its 20 peers have eight candidates, the last of them is (8, 0)
    let mut array = [0; ARRAY_SIZE];
    array[0] = 5;
    let board = SudokuBoard::from_array(array);
    assert_eq!(board.get_lowest_entropy(), (8, 0));

    // (0, 8) and (8, 0) see both givens and have seven candidates
    array[80] = 1;
    let board = SudokuBoard::from_array(array);
    assert_eq!(board.get_lowest_entropy(), (8, 0));

    // (0, 8) sees all three givens and is alone with six candidates
    array[4 * SUDOKU_SIZE + 8] = 2;
    let board = SudokuBoard::from_array(array);
    assert_eq!(board.get_lowest_entropy(), (0, 8));
}

#[test]
fn lowest_entropy_finds_the_only_blank() {
    let mut array = SOLUTION;
    array[3 * SUDOKU_SIZE + 7] = 0;
    let board = SudokuBoard::from_array(array);
    assert_eq!(board.get_lowest_entropy(), (3, 7));
    assert_eq!(open_at(&board, 3, 7), Some(vec![1]));
}

#[test]
fn propagate_collapse_lists_column_then_row_then_subgrid() {
    let mut array = [0; ARRAY_SIZE];
    array[4 * SUDOKU_SIZE + 4] = 7;
    let mut board = SudokuBoard::from_array(array);
    // the given was propagated at construction: nothing is left to remove
    assert_eq!(board.propagate_collapse(4, 4), Vec::<(usize, usize)>::new());

    // make 7 a candidate again in four peers and in one cell that is no peer
    board.restore_domain(7, vec![(5, 5), (4, 8), (0, 4), (3, 4), (0, 0)]);
    assert_eq!(open_at(&board, 5, 5), Some(vec![1, 2, 3, 4, 5, 6, 7, 8, 9]));
    let modified = board.propagate_collapse(4, 4);
    assert_eq!(modified, vec![(0, 4), (3, 4), (4, 8), (5, 5)]);
    assert_eq!(open_at(&board, 5, 5), Some(vec![1, 2, 3, 4, 5, 6, 8, 9]));
    assert_eq!(open_at(&board, 0, 0), Some(vec![1, 2, 3, 4, 5, 6, 7, 8, 9]));
}

#[test]
fn propagation_round_trip() {
    let mut array = [0; ARRAY_SIZE];
    array[4 * SUDOKU_SIZE + 4] = 7;
    array[0] = 3;
    let mut board = SudokuBoard::from_array(array);
    board.restore_domain(7, vec![(5, 5), (4, 8), (0, 4), (3, 4)]);
    let before = snapshot(&board);

    let modified = board.propagate_collapse(4, 4);
    assert_eq!(modified.len(), 4);
    assert_ne!(snapshot(&board), before);
    board.restore_domain(7, modified);
    assert_eq!(snapshot(&board), before);
}

#[test]
fn restore_domain_opens_a_fixed_cell() {
    let mut array = [0; ARRAY_SIZE];
    array[0] = 3;
    array[1] = 4;
    let mut board = SudokuBoard::from_array(array);
    board.restore_domain(4, vec![(0, 0), (2, 2)]);
    assert_eq!(open_at(&board, 0, 0), Some(vec![1, 2, 3, 4, 5, 6, 7, 8, 9]));
    assert_eq!(open_at(&board, 2, 2), Some(vec![1, 2, 4, 5, 6, 7, 8, 9]));
    assert!(matches!(board.get(0, 1), Tile::Collapsed(4)));
}

#[test]
fn propagate_uncollapsed_is_idempotent() {
    let mut array = [0; ARRAY_SIZE];
    array[0] = 3;
    array[40] = 4;
    let mut board = SudokuBoard::from_array(array);
    let before = snapshot(&board);
    board.propagate_uncollapsed();
    assert_eq!(snapshot(&board), before);

    board.restore_domain(3, vec![(0, 5), (8, 0)]);
    assert_ne!(snapshot(&board), before);
    board.propagate_uncollapsed();
    assert_eq!(snapshot(&board), before);
}

#[test]
fn clone_keeps_the_board() {
    let mut array = [0; ARRAY_SIZE];
    array[0] = 3;
    let board = SudokuBoard::from_array(array);
    let copy = board.clone();
    assert_eq!(snapshot(&copy), snapshot(&board));
}

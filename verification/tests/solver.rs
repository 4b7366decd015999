use sudoku::{SudokuBoard, Tile, SUDOKU_SIZE};

const ARRAY_SIZE: usize = SUDOKU_SIZE * SUDOKU_SIZE;

const SPARSE: [usize; ARRAY_SIZE] = [
    0, 0, 0, 0, 0, 0, 0, 9, 0, 9, 1, 0, 0, 0, 0, 0, 5, 0, 0, 0, 8, 0, 0, 2, 0, 0, 3, 0, 0, 5,
    0, 0, 9, 3, 0, 0, 0, 0, 0, 1, 3, 4, 0, 0, 0, 0, 0, 0, 0, 8, 5, 0, 0, 0, 0, 0, 0, 2, 0, 0,
    0, 0, 0, 3, 0, 0, 8, 0, 0, 0, 0, 0, 2, 4, 0, 0, 0, 0, 0, 8, 0,
];

const SOLUTION: [usize; ARRAY_SIZE] = [
    4, 7, 3, 5, 6, 8, 1, 9, 2, 9, 1, 2, 4, 7, 3, 6, 5, 8, 5, 6, 8, 9, 1, 2, 7, 4, 3, 7, 8, 5,
    6, 2, 9, 3, 1, 4, 6, 2, 9, 1, 3, 4, 8, 7, 5, 1, 3, 4, 7, 8, 5, 2, 6, 9, 8, 9, 6, 2, 4, 1,
    5, 3, 7, 3, 5, 7, 8, 9, 6, 4, 2, 1, 2, 4, 1, 3, 5, 7, 9, 8, 6,
];

const SINGLE_SOLUTION: [usize; ARRAY_SIZE] = [
    0, 1, 0, 0, 0, 2, 0, 0, 0, 3, 0, 4, 5, 6, 0, 1, 0, 7, 0, 8, 0, 0, 1, 0, 0, 0, 9, 0, 3, 7,
    0, 0, 0, 0, 9, 0, 0, 9, 0, 0, 4, 0, 0, 1, 0, 0, 5, 0, 0, 0, 0, 8, 2, 0, 5, 0, 0, 0, 7, 0,
    0, 6, 0, 2, 0, 1, 0, 9, 3, 5, 0, 8, 0, 0, 0, 1, 0, 0, 0, 4, 0,
];

const SINGLE_SOLVED: [usize; ARRAY_SIZE] = [
    7, 1, 9, 3, 8, 2, 4, 5, 6, 3, 2, 4, 5, 6, 9, 1, 8, 7, 6, 8, 5, 7, 1, 4, 2, 3, 9, 4, 3, 7,
    8, 2, 1, 6, 9, 5, 8, 9, 2, 6, 4, 5, 7, 1, 3, 1, 5, 6, 9, 3, 7, 8, 2, 4, 5, 4, 3, 2, 7, 8,
    9, 6, 1, 2, 6, 1, 4, 9, 3, 5, 7, 8, 9, 7, 8, 1, 5, 6, 3, 4, 2,
];

/// The solution of the empty board that comes first when the cells are read
/// row by row.
const FIRST_GRID: [usize; ARRAY_SIZE] = [
    1, 2, 3, 4, 5, 6, 7, 8, 9, 4, 5, 6, 7, 8, 9, 1, 2, 3, 7, 8, 9, 1, 2, 3, 4, 5, 6, 2, 1, 4,
    3, 6, 5, 8, 9, 7, 3, 6, 5, 8, 9, 7, 2, 1, 4, 8, 9, 7, 2, 1, 4, 3, 6, 5, 5, 3, 1, 6, 4, 2,
    9, 7, 8, 6, 4, 2, 9, 7, 8, 5, 3, 1, 9, 7, 8, 5, 3, 1, 6, 4, 2,
];

/// The fixed values of a board, 0 for an open cell.
fn values(board: &SudokuBoard) -> Vec<usize> {
    let mut out = Vec::new();
    for row in 0..SUDOKU_SIZE {
        for col in 0..SUDOKU_SIZE {
            out.push(match board.get(row, col) {
                Tile::Collapsed(v) => v,
                Tile::Uncollapsed(_) => 0,
            });
        }
    }
    out
}

/// The candidates of every cell, empty for a fixed cell.
fn candidates(board: &SudokuBoard) -> Vec<Vec<usize>> {
    let mut out = Vec::new();
    for row in 0..SUDOKU_SIZE {
        for col in 0..SUDOKU_SIZE {
            out.push(match board.get(row, col) {
                Tile::Collapsed(_) => Vec::new(),
                Tile::Uncollapsed(domain) => domain.get_valid(),
            });
        }
    }
    out
}

/// A valid board without a solution: the last cell of the first row can take
/// no value.
fn dead_end() -> [usize; ARRAY_SIZE] {
    let mut array = [0; ARRAY_SIZE];
    for col in 0..8 {
        array[col] = col + 1;
    }
    array[5 * SUDOKU_SIZE + 8] = 9;
    array
}

#[test]
fn test_generation() {
    let mut board = SudokuBoard::generate();
    assert!(board.is_valid());
    assert!(!board.is_complete());

    let mut steps = 0;
    board.solve_brute_force(&mut steps);
    assert!(board.is_valid());
    assert!(board.is_complete());
}

#[test]
fn test_brute_force_solver() {
    let mut board = SudokuBoard::generate();
    assert!(board.is_valid());
    assert!(!board.is_complete());

    let mut steps = 0;
    board.solve_brute_force(&mut steps);
    assert!(board.is_complete());
}

#[test]
fn test_csp_solver() {
    let mut board = SudokuBoard::generate();
    assert!(board.is_valid());
    assert!(!board.is_complete());

    let mut steps = 0;
    board.solve_csp(&mut steps);
    assert!(board.is_complete());
}

#[test]
fn test_csp_is_better() {
    let mut dfs_board = SudokuBoard::generate();
    assert!(dfs_board.is_valid());
    assert!(!dfs_board.is_complete());

    let mut csp_board = dfs_board.clone();

    let mut dfs_steps = 0;
    dfs_board.solve_brute_force(&mut dfs_steps);
    assert!(dfs_board.is_complete());

    let mut csp_steps = 0;
    csp_board.solve_csp(&mut csp_steps);
    assert!(csp_board.is_complete());

    assert!(csp_steps <= dfs_steps);
}

#[test]
fn empty_board_steps() {
    let mut dfs_board = SudokuBoard::generate();
    let mut csp_board = dfs_board.clone();
    let mut dfs_steps = 0;
    assert!(dfs_board.solve_brute_force(&mut dfs_steps));
    let mut csp_steps = 0;
    assert!(csp_board.solve_csp(&mut csp_steps));
    assert!(dfs_board.is_valid() && dfs_board.is_complete());
    assert!(csp_board.is_valid() && csp_board.is_complete());
    assert_eq!(dfs_steps, 392);
    assert_eq!(csp_steps, 82);
    assert_eq!(values(&dfs_board), FIRST_GRID.to_vec());
}

/// A puzzle on which forward checking takes one step more than trying
/// every value.
const CSP_SLOWER: [usize; ARRAY_SIZE] = [
    0, 2, 3, 4, 0, 6, 7, 0, 9, 4, 0, 0, 7, 0, 0, 1, 2, 0, 7, 0, 9, 0, 0, 3, 0, 0, 0, 0, 1, 4,
    3, 0, 5, 8, 0, 0, 3, 6, 0, 8, 0, 0, 0, 1, 4, 0, 9, 7, 0, 0, 4, 3, 6, 0, 0, 0, 0, 0, 0, 0,
    9, 0, 8, 6, 0, 0, 9, 0, 0, 5, 3, 0, 0, 0, 0, 0, 3, 0, 6, 0, 0,
];

#[test]
fn csp_can_take_more_steps() {
    let mut dfs_board = SudokuBoard::from_array(CSP_SLOWER);
    let mut csp_board = SudokuBoard::from_array(CSP_SLOWER);
    assert!(dfs_board.is_valid());
    let mut dfs_steps = 0;
    let mut csp_steps = 0;
    assert!(dfs_board.solve_brute_force(&mut dfs_steps));
    assert!(csp_board.solve_csp(&mut csp_steps));
    assert_eq!(dfs_steps, 51);
    assert_eq!(csp_steps, 52);
    assert!(dfs_board.is_valid() && dfs_board.is_complete());
    assert!(csp_board.is_valid() && csp_board.is_complete());
}

#[test]
fn watcher_sees_every_step() {
    let seen = std::cell::Cell::new(0u32);
    let count = |_board: &SudokuBoard| seen.set(seen.get() + 1);

    let mut board = SudokuBoard::from_array(SINGLE_SOLUTION);
    let mut steps = 0;
    assert!(board.solve_csp_watched(&mut steps, &count));
    assert_eq!(steps, 51);
    assert_eq!(seen.get(), 51);

    let mut board = SudokuBoard::from_array(SINGLE_SOLUTION);
    let mut steps = 0;
    assert!(board.solve_brute_force_watched(&mut steps, &count));
    assert_eq!(steps, 392);
    assert_eq!(seen.get(), 51 + 392);
    assert_eq!(values(&board), SINGLE_SOLVED.to_vec());
}

#[test]
fn watcher_sees_the_board_before_the_step() {
    let first = std::cell::Cell::new(None);
    let look = |board: &SudokuBoard| {
        if first.get().is_none() {
            first.set(Some(board.is_complete()));
        }
    };
    let mut array = SOLUTION;
    array[40] = 0;
    let mut board = SudokuBoard::from_array(array);
    let mut steps = 0;
    assert!(board.solve_csp_watched(&mut steps, &look));
    assert_eq!(first.get(), Some(false));
    assert!(board.is_complete());
}

#[test]
fn sparse_puzzle_csp() {
    let mut board = SudokuBoard::from_array(SPARSE);
    let mut steps = 0;
    assert!(board.solve_csp(&mut steps));
    assert!(board.is_complete());
    assert!(board.is_valid());
    let solved = values(&board);
    for k in 0..ARRAY_SIZE {
        assert!(SPARSE[k] == 0 || SPARSE[k] == solved[k]);
    }
    assert_eq!(steps, 74);
}

#[test]
fn sparse_puzzle_brute_force() {
    let mut board = SudokuBoard::from_array(SPARSE);
    let mut steps = 0;
    assert!(board.solve_brute_force(&mut steps));
    assert!(board.is_complete());
    assert!(board.is_valid());
    let solved = values(&board);
    for k in 0..ARRAY_SIZE {
        assert!(SPARSE[k] == 0 || SPARSE[k] == solved[k]);
    }
    assert_eq!(steps, 112);
}

#[test]
fn single_solution_same_grid() {
    let mut dfs_board = SudokuBoard::from_array(SINGLE_SOLUTION);
    let mut csp_board = SudokuBoard::from_array(SINGLE_SOLUTION);
    let mut dfs_steps = 0;
    let mut csp_steps = 0;
    assert!(dfs_board.solve_brute_force(&mut dfs_steps));
    assert!(csp_board.solve_csp(&mut csp_steps));
    assert_eq!(values(&dfs_board), values(&csp_board));
    assert_eq!(values(&dfs_board), SINGLE_SOLVED.to_vec());
    assert!(dfs_board.is_valid() && dfs_board.is_complete());
    assert_eq!(dfs_steps, 392);
    assert_eq!(csp_steps, 51);
}

#[test]
fn complete_board_takes_one_step() {
    let mut board = SudokuBoard::from_array(SOLUTION);
    let mut steps = 0;
    assert!(board.solve_brute_force(&mut steps));
    assert_eq!(steps, 1);
    assert!(board.solve_csp(&mut steps));
    assert_eq!(steps, 2);
    assert_eq!(values(&board), SOLUTION.to_vec());
}

#[test]
fn step_counter_wraps() {
    let mut board = SudokuBoard::from_array(SOLUTION);
    let mut steps = u32::MAX;
    assert!(board.solve_brute_force(&mut steps));
    assert_eq!(steps, 0);
    let mut steps = u32::MAX;
    assert!(board.solve_csp(&mut steps));
    assert_eq!(steps, 0);
}

#[test]
fn one_blank_takes_two_steps() {
    let mut array = SOLUTION;
    array[40] = 0;
    let mut board = SudokuBoard::from_array(array);
    let mut steps = 0;
    assert!(board.solve_csp(&mut steps));
    assert_eq!(steps, 2);
    assert_eq!(values(&board), SOLUTION.to_vec());

    let mut board = SudokuBoard::from_array(array);
    let mut steps = 0;
    assert!(board.solve_brute_force(&mut steps));
    assert_eq!(steps, 2);
    assert_eq!(values(&board), SOLUTION.to_vec());
}

#[test]
fn dead_end_fails_both() {
    let mut board = SudokuBoard::from_array(dead_end());
    assert!(board.is_valid());
    let before_values = values(&board);
    let before = candidates(&board);
    assert_eq!(before[8], Vec::<usize>::new());

    let mut steps = 0;
    let mut csp_board = board.clone();
    assert!(!csp_board.solve_csp(&mut steps));
    assert_eq!(steps, 1);
    assert_eq!(values(&csp_board), before_values);
    assert_eq!(candidates(&csp_board), before);

    let mut steps = 0;
    assert!(!board.solve_brute_force(&mut steps));
    assert_eq!(steps, 1);
    assert_eq!(values(&board), before_values);
    let after = candidates(&board);
    assert_eq!(after[8], vec![1, 2, 3, 4, 5, 6, 7, 8, 9]);
    for k in 0..ARRAY_SIZE {
        assert!(k == 8 || after[k] == before[k]);
    }
}

#[test]
fn csp_is_better_on_a_puzzle() {
    let mut dfs_board = SudokuBoard::from_array(SINGLE_SOLUTION);
    let mut csp_board = dfs_board.clone();
    let mut dfs_steps = 0;
    assert!(dfs_board.solve_brute_force(&mut dfs_steps));
    let mut csp_steps = 0;
    assert!(csp_board.solve_csp(&mut csp_steps));
    assert!(csp_steps <= dfs_steps);
}

#[test]
fn searches_differ_when_candidates_are_missing() {
    // the first cell is blank and can take no value while the second holds a 4
    let mut array = SOLUTION;
    array[0] = 0;
    array[1] = 4;
    let mut board = SudokuBoard::from_array(array);
    assert_eq!(candidates(&board)[0], Vec::<usize>::new());
    // opening the second cell leaves the first without candidates
    board.restore_domain(4, vec![(0, 1)]);
    assert_eq!(candidates(&board)[0], Vec::<usize>::new());
    assert_eq!(candidates(&board)[1], vec![1, 2, 3, 4, 5, 6, 7, 8, 9]);

    let mut csp_board = board.clone();
    let mut steps = 0;
    assert!(!csp_board.solve_csp(&mut steps));
    assert_eq!(steps, 1);

    let mut steps = 0;
    assert!(board.solve_brute_force(&mut steps));
    assert_eq!(steps, 3);
    assert_eq!(values(&board), SOLUTION.to_vec());
}

#[test]
fn brute_force_finds_the_first_solution() {
    // the empty board has many solutions: the search ends on the one that
    // holds the smallest value in the first cell where two of them differ
    let mut board = SudokuBoard::generate();
    let mut steps = 0;
    assert!(board.solve_brute_force(&mut steps));
    let first = values(&board);
    assert_eq!(first, FIRST_GRID.to_vec());

    let mut other = SudokuBoard::generate();
    let mut steps = 0;
    assert!(other.solve_csp(&mut steps));
    let second = values(&other);
    assert_ne!(first, second);
    let differ = (0..ARRAY_SIZE).find(|k| first[*k] != second[*k]).unwrap();
    assert!(first[differ] < second[differ]);
}

#[test]
fn invalid_input_is_completed_but_stays_invalid() {
    let mut array = SOLUTION;
    array[0] = 7;
    array[40] = 0;
    let mut board = SudokuBoard::from_array(array);
    assert!(!board.is_valid());
    let mut steps = 0;
    assert!(board.solve_brute_force(&mut steps));
    assert!(board.is_complete());
    assert!(!board.is_valid());
}

use sudoku::{Domain, Tile, SUDOKU_SIZE};

#[test]
fn test_state_none_valid() {
    let state = Domain {
        state: [false; SUDOKU_SIZE],
    };
    let valid_in_state = state.get_valid();
    assert_eq!(valid_in_state.len(), 0);
}

#[test]
fn test_state_all_valid() {
    let state = Domain {
        state: [true; SUDOKU_SIZE],
    };
    let valid_in_state = state.get_valid();
    assert_eq!(valid_in_state.len(), 9);
}

#[test]
fn test_state_valid_count() {
    let mut state = Domain {
        state: [true; SUDOKU_SIZE],
    };
    for i in 1..=SUDOKU_SIZE {
        state.mark_invalid(i);
        let valid_in_state = state.get_valid();
        assert_eq!(valid_in_state.contains(&i), false)
    }

    let valid_in_state = state.get_valid();
    assert_eq!(valid_in_state.len(), 0);
}

#[test]
fn default_domain_holds_every_value() {
    assert_eq!(Domain::default().get_valid(), vec![1, 2, 3, 4, 5, 6, 7, 8, 9]);
}

#[test]
fn get_valid_is_ascending() {
    let mut domain = Domain::default();
    domain.mark_invalid(4);
    domain.mark_invalid(1);
    domain.mark_invalid(9);
    assert_eq!(domain.get_valid(), vec![2, 3, 5, 6, 7, 8]);
}

#[test]
fn mark_invalid_reports_change() {
    let mut domain = Domain::default();
    assert!(domain.mark_invalid(7));
    assert!(!domain.mark_invalid(7));
    assert_eq!(domain.get_valid(), vec![1, 2, 3, 4, 5, 6, 8, 9]);
}

#[test]
fn mark_valid_adds_back() {
    let mut domain = Domain {
        state: [false; SUDOKU_SIZE],
    };
    domain.mark_valid(3);
    assert_eq!(domain.get_valid(), vec![3]);
    domain.mark_valid(3);
    assert_eq!(domain.get_valid(), vec![3]);
    assert!(domain.mark_invalid(3));
    assert_eq!(domain.get_valid(), Vec::<usize>::new());
}

#[test]
fn from_value_excludes_nothing() {
    for val in 1..=SUDOKU_SIZE {
        let domain = Domain::from_value(val);
        assert!(domain.get_valid().contains(&val));
        assert_eq!(domain.get_valid(), vec![1, 2, 3, 4, 5, 6, 7, 8, 9]);
    }
}

#[test]
fn default_tile_is_open() {
    match Tile::default() {
        Tile::Uncollapsed(domain) => assert_eq!(domain.get_valid().len(), 9),
        Tile::Collapsed(_) => panic!("a new tile is open"),
    }
}

use crossword::grid::CellError;
use crossword::grid::CrosswordError;
use crossword::grid::CrosswordGrid;
use crossword::grid::CrosswordGridBuilder;
use crossword::grid::Direction;
use crossword::grid::Location;

fn count_black_cells(grid: &CrosswordGrid, rows: std::ops::RangeInclusive<isize>, cols: std::ops::RangeInclusive<isize>) -> usize {
    let mut count = 0;
    for r in rows {
        for c in cols.clone() {
            if let Ok(cell) = grid.get_cell(&Location(r, c)) {
                if cell.is_black() {
                    count += 1;
                }
            }
        }
    }
    count
}

#[test]
fn test_fill_black_cells() {
    let mut grid = CrosswordGrid::new_single_word("ALPHA");
    grid.fit_to_size();
    grid.fill_black_cells();

    assert_eq!(count_black_cells(&grid, -1..=1, -1..=5), 2);
    assert!(grid.get_cell(&Location(0, -1)).unwrap().is_black());
    assert!(grid.get_cell(&Location(0, 5)).unwrap().is_black());
}

#[test]
fn test_count_filled_cells() {
    let grid = CrosswordGrid::new_single_word("ALPHA");
    assert!(grid.get_cell(&Location(0, 0)).unwrap().contains_letter());

    for i in 0..4isize {
        assert_eq!(grid.count_filled_cells_col(i), 1);
    }
    assert_eq!(grid.count_filled_cells_row(0), 5);
}

#[test]
fn test_fit_to_size() {
    let mut grid = CrosswordGrid::new_single_word("ALPHA");
    grid.fit_to_size();
    assert_eq!(grid.get_grid_dimensions_with_buffer(), (3, 7));
    // Shouldn't change size on second call of function
    grid.fit_to_size();
    assert_eq!(grid.get_grid_dimensions_with_buffer(), (3, 7));
}

#[test]
fn single_word() {
    let grid = CrosswordGrid::new_single_word("ALPHA");
    assert_eq!(grid.count_all_words(), 1);
    assert_eq!(grid.count_intersections(), 0);
    assert_eq!(grid.to_graph().count_cycles(), 0);
    assert_eq!(grid.get_grid_dimensions(), (1, 5));
    assert_eq!(grid.count_empty_cells(), 0);
    assert_eq!(grid.count_filled_cells(), 5);
    assert!(grid.check_valid());
}

#[test]
fn add_word_to_grid_basic() {
    let mut grid = CrosswordGrid::new_single_word("ALPHA");
    grid.fit_to_size();
    grid.fill_black_cells();
    assert!(grid.check_valid());

    let arrival_word_id = grid.add_unplaced_word("ARRIVAL", "", None);
    let bear_word_id = grid.add_unplaced_word("BEARER", "", None);
    let innards_word_id = grid.add_unplaced_word("INNARDS", "", None);
    let cup_word_id = grid.add_unplaced_word("CUP", "", None);
    let cap_word_id = grid.add_unplaced_word("CAP", "", None);
    assert!(grid.check_valid());

    assert!(grid.try_place_word_in_cell_connected(Location(0, 0), arrival_word_id, 0, Direction::Down));
    assert!(grid.check_valid());
    assert!(grid.try_place_word_in_cell_connected(Location(0, 4), bear_word_id, 2, Direction::Down));
    assert!(grid.check_valid());
    assert!(grid.try_place_word_in_cell_connected(Location(0, 2), cup_word_id, 2, Direction::Down));
    assert!(grid.check_valid());

    let before_failure = grid.to_string();
    assert!(!grid.try_place_word_in_cell_connected(Location(0, 3), innards_word_id, 1, Direction::Down));
    assert!(grid.check_valid());
    assert_eq!(before_failure, grid.to_string());

    assert!(!grid.try_place_word_in_cell_connected(Location(-2, 2), cap_word_id, 0, Direction::Across));
    assert!(grid.check_valid());
    assert_eq!(before_failure, grid.to_string());

    assert!(grid.try_place_word_in_cell_connected(Location(3, 0), innards_word_id, 0, Direction::Across));
    assert!(grid.check_valid());

    grid.fit_to_size();
    let expected = "  C B  \n  U E  \nALPHA  \nR   R  \nR   E  \nINNARDS\nV      \nA      \nL      \n";
    assert_eq!(grid.to_string(), expected);

    let mut from_text = CrosswordGridBuilder::new().from_string(expected);
    from_text.fit_to_size();
    assert_eq!(from_text.to_string(), grid.to_string());
}

#[test]
fn placement_rejection_letter_mismatch() {
    let mut grid = CrosswordGrid::new_single_word("ALPHA");
    grid.fit_to_size();
    grid.fill_black_cells();
    let bear_word_id = grid.add_unplaced_word("BEARER", "", None);
    let innards_word_id = grid.add_unplaced_word("INNARDS", "", None);
    assert!(grid
        .try_place_word_in_cell(Location(0, 4), bear_word_id, 2, Direction::Down)
        .is_ok());

    // the H of ALPHA sits where INNARDS would need its second N
    let before = grid.to_string();
    let result = grid.try_place_word_in_cell(Location(0, 3), innards_word_id, 2, Direction::Down);
    assert!(matches!(
        result,
        Err(CrosswordError::CellError(_, CellError::LetterMismatch(_, _)))
    ));
    assert_eq!(before, grid.to_string());
}

#[test]
fn placement_error_variants() {
    let mut grid = CrosswordGrid::new_single_word("ALPHA");
    grid.fit_to_size();
    grid.fill_black_cells();

    // unknown word id
    assert!(matches!(
        grid.try_place_word_in_cell(Location(0, 0), 99, 0, Direction::Down),
        Err(CrosswordError::WordNotFound(99))
    ));

    // already placed: the single word has id 0
    assert!(matches!(
        grid.try_place_word_in_cell(Location(0, 0), 0, 0, Direction::Down),
        Err(CrosswordError::WordAlreadyPlaced(0, _))
    ));

    // direction the word's requirement forbids
    let fixed = grid.add_unplaced_word("PASTA", "", Some(Direction::Across));
    assert!(matches!(
        grid.try_place_word_in_cell(Location(0, 0), fixed, 0, Direction::Down),
        Err(CrosswordError::InvalidWordDirection(_, Direction::Down))
    ));

    // a word starting right below ALPHA's first letter has a taken boundary
    let tail = grid.add_unplaced_word("LLAMA", "", None);
    assert!(matches!(
        grid.try_place_word_in_cell(Location(1, 0), tail, 0, Direction::Down),
        Err(CrosswordError::NonEmptyWordBoundary(_, _))
    ));
}

#[test]
fn render_roundtrip_single_word() {
    let mut grid = CrosswordGrid::new_single_word("ALPHA");
    grid.fit_to_size();
    let rendered = grid.to_string();
    let mut reparsed = CrosswordGridBuilder::new().from_string(&rendered);
    reparsed.fit_to_size();
    assert_eq!(reparsed.to_string(), rendered);
}

#[test]
fn render_roundtrip_built_grid() {
    let text = "  C B  \n  U E  \nALPHA  \nR   R  \nR   E  \nINNARDS\nV      \nA      \nL      \n";
    let mut grid = CrosswordGridBuilder::new().from_string(text);
    grid.fit_to_size();
    let rendered = grid.to_string();
    let mut reparsed = CrosswordGridBuilder::new().from_string(&rendered);
    reparsed.fit_to_size();
    assert_eq!(reparsed.to_string(), rendered);
    assert_eq!(rendered, text);
}

#[test]
fn single_word_buffer_scenario() {
    // ALPHA fitted: 3 rows x 7 columns, black cells just left and right
    let mut grid = CrosswordGrid::new_single_word("ALPHA");
    grid.fit_to_size();
    grid.fill_black_cells();
    assert_eq!(grid.get_grid_dimensions_with_buffer(), (3, 7));
    assert_eq!(count_black_cells(&grid, -1..=1, -1..=5), 2);
    assert!(grid.get_cell(&Location(0, -1)).unwrap().is_black());
    assert!(grid.get_cell(&Location(0, 5)).unwrap().is_black());
}

#[test]
fn check_valid_detects_disconnection() {
    // two across words with no intersection: two graph components
    let grid = CrosswordGridBuilder::new().from_string("AB CD\n");
    assert_eq!(grid.count_all_words(), 2);
    assert!(!grid.check_valid());

    // a single word is trivially connected
    let grid = CrosswordGrid::new_single_word("ALPHA");
    assert!(grid.check_valid());
}

#[test]
fn unplace_and_delete() {
    let mut grid = CrosswordGrid::new_single_word("ALPHA");
    grid.fit_to_size();
    grid.fill_black_cells();
    let arrival_word_id = grid.add_unplaced_word("ARRIVAL", "", None);
    assert!(grid.try_place_word_in_cell_connected(Location(0, 0), arrival_word_id, 0, Direction::Down));
    assert_eq!(grid.count_placed_words(), 2);

    grid.unplace_word(arrival_word_id);
    assert_eq!(grid.count_placed_words(), 1);
    assert_eq!(grid.count_all_words(), 2);

    grid.delete_word(arrival_word_id);
    assert_eq!(grid.count_all_words(), 1);
    grid.fit_to_size();
    assert_eq!(grid.get_grid_dimensions_with_buffer(), (3, 7));
}

#[test]
fn add_random_words() {
    let mut grid = CrosswordGrid::new_single_word("BANANA");
    grid.fit_to_size();
    grid.fill_black_cells();
    grid.add_unplaced_word("NAB", "", None);
    grid.add_unplaced_word("ANT", "", None);

    let mut success = true;
    let mut guard = 0;
    while success && guard < 10 {
        success = grid.place_random_word(13);
        guard += 1;
    }
    assert!(grid.count_placed_words() >= 2);
    assert!(grid.check_valid());
}

#[test]
fn determinism_same_seed_same_grid() {
    // two identically built grids, filled with the same seed, render alike
    let build = || {
        let mut grid = CrosswordGrid::new_single_word("BANANA");
        grid.fit_to_size();
        grid.fill_black_cells();
        grid.add_unplaced_word("NAB", "", None);
        grid.add_unplaced_word("ANT", "", None);
        let mut success = true;
        let mut guard = 0;
        while success && guard < 10 {
            success = grid.place_random_word(29);
            guard += 1;
        }
        grid.fit_to_size();
        grid.to_string()
    };
    assert_eq!(build(), build());
}

#[test]
fn remove_random_leaves_keeps_words() {
    let mut grid = CrosswordGrid::new_single_word("BANANA");
    grid.fit_to_size();
    grid.fill_black_cells();
    grid.add_unplaced_word("NAB", "", None);
    assert!(grid.try_place_word_in_cell_connected(Location(0, 2), 1, 0, Direction::Down));
    assert_eq!(grid.count_placed_words(), 2);
    grid.remove_random_leaves(1, 7);
    assert_eq!(grid.count_placed_words(), 1);
}

use crossword::grid::CrosswordGrid;

#[test]
fn test_matrix_compatible() {
    // BEE lying across, BEAR standing down, as single-word grids
    let bee_grid = CrosswordGrid::new_single_word("BEE");
    let bear_grid = CrosswordGrid::new_single_word("B\nE\nA\nR");

    // Check specific matches
    assert!(bee_grid.to_matrix().compatible_with_matrix(&bear_grid.to_matrix(), 0, 0));
    assert!(bee_grid.to_matrix().compatible_with_matrix(&bear_grid.to_matrix(), -1, 2));
    assert!(bee_grid.to_matrix().compatible_with_matrix(&bear_grid.to_matrix(), -1, 1));
    assert!(!bee_grid.to_matrix().compatible_with_matrix(&bear_grid.to_matrix(), 1, 1));
    assert!(!bee_grid.to_matrix().compatible_with_matrix(&bear_grid.to_matrix(), 1, 2));
    assert!(!bee_grid.to_matrix().compatible_with_matrix(&bear_grid.to_matrix(), 0, 1));

    // Check the total number of compatible configurations
    let mut compatible_versions = 0;
    for i in -5..5 {
        for j in -5..5 {
            let is_compatible =
                bee_grid.to_matrix().compatible_with_matrix(&bear_grid.to_matrix(), i, j);
            if is_compatible {
                compatible_versions += 1;
            }
            // the opposite overlay direction must agree
            assert_eq!(
                is_compatible,
                bear_grid.to_matrix().compatible_with_matrix(&bee_grid.to_matrix(), -i, -j)
            );
        }
    }
    assert_eq!(compatible_versions, 3);
}

#[test]
fn test_matrix_squares() {
    // two stacked identical words would form a two-by-two letter block
    let top = CrosswordGrid::new_single_word("BEE");
    let bottom = CrosswordGrid::new_single_word("BEE");
    assert!(!top.to_matrix().compatible_with_matrix(&bottom.to_matrix(), 1, 0));
    // and zero displacement coincides completely, which is compatible
    assert!(top.to_matrix().compatible_with_matrix(&bottom.to_matrix(), 0, 0));
}

#[test]
fn test_find_best_configuration() {
    let bee_grid = CrosswordGrid::new_single_word("BEE");
    let bear_grid = CrosswordGrid::new_single_word("B\nE\nA\nR");
    let best = bee_grid
        .to_matrix()
        .find_best_probably_compatible_configuration(&bear_grid.to_matrix());
    assert!(best.is_some());
    let ((rs, cs), overlaps) = best.unwrap();
    assert!(bee_grid.to_matrix().compatible_with_matrix(&bear_grid.to_matrix(), rs, cs));
    assert!(overlaps >= 1);

    // a grid that shares no letters with BEE cannot be overlaid
    let dull_grid = CrosswordGrid::new_single_word("XY");
    let none = bee_grid
        .to_matrix()
        .find_best_probably_compatible_configuration(&dull_grid.to_matrix());
    assert!(none.is_none());
}

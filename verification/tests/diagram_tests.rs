use knots::diagram::{Axis, Cardinality, CromwellMove, Diagram, DiagramError, Direction};

fn grid(rows: &[&str]) -> Vec<Vec<char>> {
    rows.iter().map(|r| r.chars().collect()).collect()
}

fn two_by_two() -> Vec<Vec<char>> {
    grid(&["xo", "ox"])
}

/// Diagonal over-marks with under-marks shifted by two: a 5x5 grid
/// diagram of the trefoil.
fn trefoil() -> Vec<Vec<char>> {
    grid(&["x  o ", " x  o", "o x  ", " o x ", "  o x"])
}

#[test]
fn from_matrix_accepts_valid_grid() {
    let d = Diagram::from_matrix(two_by_two()).unwrap();
    assert_eq!(d.get_resolution(), 2);
    assert_eq!(*d.get_data(), two_by_two());
}

#[test]
fn from_matrix_accepts_trefoil() {
    let d = Diagram::from_matrix(trefoil()).unwrap();
    assert_eq!(d.get_resolution(), 5);
}

#[test]
fn from_matrix_rejects_non_square() {
    let r = Diagram::from_matrix(grid(&["xo ", " ox"]));
    assert!(matches!(r, Err(DiagramError::NotSquare)));
    let r = Diagram::from_matrix(grid(&["xo", "ox", "xo"]));
    assert!(matches!(r, Err(DiagramError::NotSquare)));
}

#[test]
fn from_matrix_rejects_double_over_mark() {
    // Two over-marks in the first row.
    let r = Diagram::from_matrix(grid(&["xx ", "o o", " ox"]));
    assert!(matches!(r, Err(DiagramError::InvalidMarking)));
}

#[test]
fn from_matrix_rejects_missing_under_mark() {
    let r = Diagram::from_matrix(grid(&["x ", " x"]));
    assert!(matches!(r, Err(DiagramError::InvalidMarking)));
}

#[test]
fn from_matrix_accepts_empty_grid() {
    // A zero-by-zero matrix is square and has no line to violate the
    // marking invariant.
    let d = Diagram::from_matrix(Vec::new()).unwrap();
    assert_eq!(d.get_resolution(), 0);
}

#[test]
fn translation_round_trip_restores_grid() {
    let original = trefoil();
    let mut d = Diagram::from_matrix(original.clone()).unwrap();
    d.apply_move(CromwellMove::Translation(Direction::Up)).unwrap();
    assert_ne!(*d.get_data(), original);
    d.apply_move(CromwellMove::Translation(Direction::Down)).unwrap();
    assert_eq!(*d.get_data(), original);
    d.apply_move(CromwellMove::Translation(Direction::Left)).unwrap();
    assert_ne!(*d.get_data(), original);
    d.apply_move(CromwellMove::Translation(Direction::Right)).unwrap();
    assert_eq!(*d.get_data(), original);
}

#[test]
fn translation_rotates_rows_and_columns() {
    let mut d = Diagram::from_matrix(two_by_two()).unwrap();
    d.apply_move(CromwellMove::Translation(Direction::Up)).unwrap();
    assert_eq!(*d.get_data(), grid(&["ox", "xo"]));
    let mut d = Diagram::from_matrix(two_by_two()).unwrap();
    d.apply_move(CromwellMove::Translation(Direction::Left)).unwrap();
    assert_eq!(*d.get_data(), grid(&["ox", "xo"]));
}

#[test]
fn commutation_rejects_interleaved_rows() {
    let mut d = Diagram::from_matrix(two_by_two()).unwrap();
    let r = d.apply_move(CromwellMove::Commutation { axis: Axis::Row, start_index: 0 });
    assert!(matches!(r, Err(DiagramError::InterleavedLines)));
    // The failed move left the grid untouched.
    assert_eq!(*d.get_data(), two_by_two());
}

#[test]
fn commutation_rejects_last_line() {
    let mut d = Diagram::from_matrix(two_by_two()).unwrap();
    let r = d.apply_move(CromwellMove::Commutation { axis: Axis::Row, start_index: 1 });
    assert!(matches!(r, Err(DiagramError::NoAdjacentLine)));
    assert_eq!(*d.get_data(), two_by_two());
}

#[test]
fn commutation_swaps_nested_rows() {
    // Row 1's marks sit strictly inside row 0's span, so the two rows are
    // not interleaved and may be exchanged.
    let nested = grid(&["x  o", " ox ", " xo ", "o  x"]);
    let mut d = Diagram::from_matrix(nested.clone()).unwrap();
    d.apply_move(CromwellMove::Commutation { axis: Axis::Row, start_index: 0 }).unwrap();
    assert_eq!(*d.get_data(), grid(&[" ox ", "x  o", " xo ", "o  x"]));
    // The exchanged grid is still a valid diagram.
    assert!(Diagram::from_matrix(d.get_data().clone()).is_ok());
}

#[test]
fn commutation_swaps_nested_columns() {
    // Transpose of the nested-rows case: columns 0 and 1 are nested.
    let nested = grid(&["x  o", " ox ", " xo ", "o  x"]);
    let mut d = Diagram::from_matrix(nested).unwrap();
    let r = d.apply_move(CromwellMove::Commutation { axis: Axis::Column, start_index: 1 });
    assert!(matches!(r, Err(DiagramError::InterleavedLines)));
    d.apply_move(CromwellMove::Commutation { axis: Axis::Column, start_index: 0 }).unwrap();
    assert_eq!(*d.get_data(), grid(&[" x o", "o x ", "x o ", " o x"]));
}

#[test]
fn stabilization_nw_splits_over_mark() {
    let mut d = Diagram::from_matrix(two_by_two()).unwrap();
    d.apply_move(CromwellMove::Stabilization { cardinality: Cardinality::NW, i: 0, j: 0 })
        .unwrap();
    assert_eq!(d.get_resolution(), 3);
    assert_eq!(*d.get_data(), grid(&[" xo", "xo ", "o x"]));
    assert!(Diagram::from_matrix(d.get_data().clone()).is_ok());
}

#[test]
fn stabilization_all_corners_preserve_validity() {
    for cardinality in [Cardinality::NW, Cardinality::SW, Cardinality::NE, Cardinality::SE] {
        let mut d = Diagram::from_matrix(trefoil()).unwrap();
        d.apply_move(CromwellMove::Stabilization { cardinality, i: 2, j: 2 }).unwrap();
        assert_eq!(d.get_resolution(), 6);
        // Every row and column still carries exactly one mark of each kind.
        assert!(Diagram::from_matrix(d.get_data().clone()).is_ok());
    }
}

#[test]
fn stabilization_keeps_cells_outside_the_block() {
    let mut d = Diagram::from_matrix(trefoil()).unwrap();
    d.apply_move(CromwellMove::Stabilization { cardinality: Cardinality::NW, i: 2, j: 2 })
        .unwrap();
    let after = d.get_data();
    let before = trefoil();
    // Rows above row 2 and columns left of column 3 stay in place; the
    // rest shift by the inserted row and column.
    for r in 0..5 {
        for c in 0..5 {
            if r == 2 && c == 2 {
                continue;
            }
            let rr = if r < 3 { r } else { r + 1 };
            let cc = if c < 3 { c } else { c + 1 };
            assert_eq!(after[rr][cc], before[r][c], "cell ({r}, {c})");
        }
    }
}

#[test]
fn stabilization_rejects_non_over_mark() {
    let mut d = Diagram::from_matrix(two_by_two()).unwrap();
    let r = d.apply_move(CromwellMove::Stabilization { cardinality: Cardinality::SE, i: 0, j: 1 });
    assert!(matches!(r, Err(DiagramError::NotAnOverMark)));
    assert_eq!(*d.get_data(), two_by_two());
}

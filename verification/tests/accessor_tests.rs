use knots::diagram::Diagram;

fn grid(rows: &[&str]) -> Vec<Vec<char>> {
    rows.iter().map(|r| r.chars().collect()).collect()
}

#[test]
fn rows_and_columns_read_back() {
    let d = Diagram::from_matrix(grid(&["ox ", " ox", "x o"])).unwrap();
    assert_eq!(d.get_row(0), vec!['o', 'x', ' ']);
    assert_eq!(d.get_row(2), vec!['x', ' ', 'o']);
    assert_eq!(d.get_column(0), vec!['o', ' ', 'x']);
    assert_eq!(d.get_column(2), vec![' ', 'x', 'o']);
}

#[test]
fn validate_accepts_and_rejects() {
    let good = Diagram::from_matrix(grid(&["xo", "ox"])).unwrap();
    assert!(good.validate().is_ok());
}

#[test]
fn set_row_and_set_column_overwrite_lines() {
    let mut d = Diagram::from_matrix(grid(&["xo", "ox"])).unwrap();
    d.set_row(0, &vec!['o', 'x']);
    assert_eq!(d.get_row(0), vec!['o', 'x']);
    d.set_column(1, &vec!['o', ' ']);
    assert_eq!(d.get_column(1), vec!['o', ' ']);
    assert_eq!(*d.get_data(), grid(&["oo", "o "]));
}

#[test]
fn exchange_rows_and_columns_swap_lines() {
    let mut d = Diagram::from_matrix(grid(&["ox ", " ox", "x o"])).unwrap();
    d.exchange_rows(0, 2);
    assert_eq!(*d.get_data(), grid(&["x o", " ox", "ox "]));
    d.exchange_columns(0, 1);
    assert_eq!(*d.get_data(), grid(&[" xo", "o x", "xo "]));
}

#[test]
fn interleaving_follows_the_mark_intervals() {
    let d = Diagram::from_matrix(grid(&["x  o", " ox ", " xo ", "o  x"])).unwrap();
    // Nested intervals are not interleaved; identical intervals are.
    assert!(!d.are_interleaved(&d.get_row(0), &d.get_row(1)));
    assert!(d.are_interleaved(&d.get_row(1), &d.get_row(2)));
    // Disjoint intervals are not interleaved either.
    let e = Diagram::from_matrix(grid(&["xo  ", "ox  ", "  xo", "  ox"])).unwrap();
    assert!(!e.are_interleaved(&e.get_row(0), &e.get_row(2)));
    // Partially overlapping intervals are interleaved.
    let f = Diagram::from_matrix(grid(&["x  o ", " x  o", "o x  ", " o x ", "  o x"]))
        .unwrap();
    assert!(f.are_interleaved(&f.get_row(0), &f.get_row(1)));
}

#[test]
fn absolute_indices_round_trip() {
    let d = Diagram::from_matrix(grid(&["ox ", " ox", "x o"])).unwrap();
    assert_eq!(d.convert_to_absolute_index(2, 1), 5);
    assert_eq!(d.convert_to_grid_indices(5), (2, 1));
    assert_eq!(d.convert_to_absolute_index(0, 0), 0);
    assert_eq!(d.convert_to_grid_indices(8), (2, 2));
}

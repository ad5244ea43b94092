use knots::diagram::Diagram;
use knots::knot::{get_neighboring_indices_wrapped, get_wrapped_index};
use knots::tangle::Tangle;

fn grid(rows: &[&str]) -> Vec<Vec<char>> {
    rows.iter().map(|r| r.chars().collect()).collect()
}

#[test]
fn unknot_circuit_has_no_crossings() {
    // Over-marks at (0, 0) and (1, 1), under-marks at (1, 0) and (0, 1):
    // the unknot shadow.
    let d = Diagram::from_matrix(grid(&["xo", "ox"])).unwrap();
    let circuit = d.generate_circuit().unwrap();
    // Absolute indices: cell (i, j) is i + 2 * j.
    assert_eq!(circuit, vec![0, 1, 3, 2, 0]);
    let (resolved, lifted) = d.resolve_crossings(&circuit);
    assert_eq!(resolved, vec![0, 1, 3, 2, 0]);
    assert!(lifted.is_empty());
}

#[test]
fn spiral_circuit_closes_in_one_loop() {
    let d = Diagram::from_matrix(grid(&["ox ", " ox", "x o"])).unwrap();
    let circuit = d.generate_circuit().unwrap();
    assert_eq!(circuit.len(), 2 * 3 + 1);
    assert_eq!(circuit, vec![2, 0, 3, 4, 7, 8, 2]);
    let (resolved, lifted) = d.resolve_crossings(&circuit);
    assert_eq!(resolved.len(), circuit.len());
    assert!(lifted.is_empty());
}

#[test]
fn trefoil_circuit_has_three_crossings() {
    // Diagonal over-marks, under-marks shifted down by two: the trefoil.
    let d = Diagram::from_matrix(grid(&["x  o ", " x  o", "o x  ", " o x ", "  o x"]))
        .unwrap();
    let circuit = d.generate_circuit().unwrap();
    assert_eq!(circuit, vec![0, 2, 12, 14, 24, 21, 6, 8, 18, 15, 0]);
    let (resolved, lifted) = d.resolve_crossings(&circuit);
    assert_eq!(lifted, vec![13, 7, 16]);
    assert_eq!(resolved, vec![0, 2, 12, 13, 14, 24, 21, 6, 7, 8, 18, 16, 15, 0]);
    assert_eq!(resolved.len(), circuit.len() + lifted.len());
}

#[test]
fn generate_topology_matches_the_two_stages() {
    let d = Diagram::from_matrix(grid(&["x  o ", " x  o", "o x  ", " o x ", "  o x"]))
        .unwrap();
    let (resolved, lifted) = d.generate_topology().unwrap();
    assert_eq!(resolved, vec![0, 2, 12, 13, 14, 24, 21, 6, 7, 8, 18, 16, 15, 0]);
    assert_eq!(lifted, vec![13, 7, 16]);
}

#[test]
fn split_diagram_yields_no_circuit() {
    // Two disjoint unknots in one grid: the walk closes after the first
    // loop, so no single circuit covers the diagram.
    let d = Diagram::from_matrix(grid(&["xo  ", "ox  ", "  xo", "  ox"])).unwrap();
    assert!(d.generate_topology().is_none());
}

#[test]
fn wrapped_index_wraps_past_the_vertex_count() {
    // With 10 vertices, index 11 wraps to the first vertex.
    assert_eq!(get_wrapped_index(10, 11), 0);
    assert_eq!(get_wrapped_index(10, 4), 4);
    assert_eq!(get_wrapped_index(10, 10), 10);
}

#[test]
fn neighboring_indices_wrap_at_both_ends() {
    assert_eq!(get_neighboring_indices_wrapped(6, 0), (5, 1));
    assert_eq!(get_neighboring_indices_wrapped(6, 3), (2, 4));
    assert_eq!(get_neighboring_indices_wrapped(6, 5), (4, 0));
}

#[test]
fn basic_tangles_are_rational() {
    assert!(Tangle::Infinity.is_rational());
    assert!(Tangle::Zero.is_rational());
    assert!(Tangle::N(-3).is_rational());
}

#[test]
fn tangle_equivalence_follows_the_fraction() {
    assert!(Tangle::Zero.equivalent(&Tangle::N(0)));
    assert!(Tangle::N(0).equivalent(&Tangle::Zero));
    assert!(Tangle::N(2).equivalent(&Tangle::N(2)));
    assert!(!Tangle::N(2).equivalent(&Tangle::N(-2)));
    assert!(!Tangle::Infinity.equivalent(&Tangle::Zero));
    assert!(!Tangle::Infinity.equivalent(&Tangle::N(0)));
    assert!(Tangle::Infinity.equivalent(&Tangle::Infinity));
}

#[test]
fn tangle_sums_add_twists() {
    assert!(matches!(Tangle::N(2).sum(&Tangle::N(3)), Tangle::N(5)));
    assert!(matches!(Tangle::N(2).sum(&Tangle::N(-2)), Tangle::N(0)));
    assert!(matches!(Tangle::Zero.sum(&Tangle::N(7)), Tangle::N(7)));
    assert!(matches!(Tangle::N(7).sum(&Tangle::Zero), Tangle::N(7)));
    assert!(matches!(Tangle::Zero.sum(&Tangle::Zero), Tangle::Zero));
    assert!(matches!(Tangle::Infinity.sum(&Tangle::N(4)), Tangle::Infinity));
    assert!(matches!(Tangle::Zero.sum(&Tangle::Infinity), Tangle::Infinity));
}

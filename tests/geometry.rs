use oxidized_navigation::geometry::{
    area_sqr, between, collinear, diagonal, diagonalie, in_cone, intersect, intersect_prop, left,
    left_on, Vertex,
};

fn v(x: i32, z: i32) -> Vertex {
    Vertex { x, y: 0, z, w: 0 }
}

#[test]
fn area_of_unit_triangle() {
    assert_eq!(area_sqr(v(0, 0), v(1, 0), v(0, 1)), 1);
    assert_eq!(area_sqr(v(0, 0), v(0, 1), v(1, 0)), -1);
    assert_eq!(area_sqr(v(2, 3), v(5, 3), v(2, 7)), 12);
}

#[test]
fn area_does_not_overflow_at_extremes() {
    let a = v(i32::MIN, i32::MIN);
    let b = v(i32::MAX, i32::MIN);
    let c = v(i32::MIN, i32::MAX);
    let d = (i32::MAX as i128) - (i32::MIN as i128);
    assert_eq!(area_sqr(a, b, c), d * d);
}

#[test]
fn orientation_predicates() {
    assert!(collinear(v(0, 0), v(2, 2), v(5, 5)));
    assert!(left(v(0, 0), v(0, 1), v(1, 0)));
    assert!(!left(v(0, 0), v(1, 0), v(0, 1)));
    assert!(left_on(v(0, 0), v(2, 2), v(1, 1)));
    assert!(!left(v(0, 0), v(2, 2), v(1, 1)));
}

#[test]
fn proper_crossing() {
    assert!(intersect_prop(v(0, 0), v(2, 2), v(0, 2), v(2, 0)));
    assert!(!intersect_prop(v(0, 0), v(2, 2), v(1, 1), v(3, 0)));
    assert!(!intersect_prop(v(0, 0), v(1, 0), v(0, 1), v(1, 1)));
}

#[test]
fn point_between_segment_ends() {
    assert!(between(v(0, 0), v(4, 0), v(2, 0)));
    assert!(between(v(0, 0), v(0, 4), v(0, 4)));
    assert!(!between(v(0, 0), v(4, 0), v(5, 0)));
    assert!(!between(v(0, 0), v(4, 0), v(2, 1)));
}

#[test]
fn segment_intersection() {
    assert!(intersect(v(0, 0), v(2, 2), v(0, 2), v(2, 0)));
    assert!(intersect(v(0, 0), v(2, 2), v(1, 1), v(3, 0)));
    assert!(!intersect(v(0, 0), v(1, 0), v(0, 1), v(1, 1)));
}

#[test]
fn cone_at_square_corner() {
    // Wound with the inside on the left.
    let square = [v(0, 4), v(4, 4), v(4, 0), v(0, 0)];
    assert!(in_cone(0, &square, v(4, 0)));
    assert!(in_cone(2, &square, v(0, 4)));
    assert!(in_cone(0, &square, v(2, 2)));
    assert!(!in_cone(0, &square, v(-2, 6)));
    assert!(in_cone(1, &square, v(0, 0)));
}

#[test]
fn cone_at_reflex_corner() {
    // The corner at (3, 5) turns right.
    let notched = [v(0, 0), v(0, 6), v(3, 5), v(6, 6), v(6, 0)];
    assert!(in_cone(2, &notched, v(3, 0)));
    assert!(!in_cone(2, &notched, v(3, 6)));
}

#[test]
fn diagonal_of_square_crosses_no_edge() {
    let square = [v(0, 4), v(4, 4), v(4, 0), v(0, 0)];
    assert!(diagonalie(0, 2, &square));
    assert!(diagonalie(1, 3, &square));
    assert!(diagonal(0, 2, &square));
    assert!(diagonal(1, 3, &square));
}

#[test]
fn reflex_corner_blocks_diagonal() {
    let notched = [v(0, 0), v(0, 6), v(3, 5), v(6, 6), v(6, 0)];
    assert!(!diagonal(1, 3, &notched));
    assert!(diagonal(0, 2, &notched));
    assert!(diagonal(2, 4, &notched));
}

#[test]
fn notch_blocks_diagonal() {
    let notched = [v(0, 0), v(6, 0), v(6, 6), v(3, 1), v(0, 6)];
    assert!(!diagonalie(0, 2, &notched));
    assert!(!diagonal(0, 2, &notched));
    assert!(diagonalie(1, 3, &notched));
}

// The coordinate model: input mapping, neighbours, diagram labels.

use go::color_to_string;
use go::Color;
use go::Intersection;

#[test]
fn input_coordinates_are_one_based() {
    let i = Intersection::from_sgf(3, 4);
    assert_eq!((i.row, i.col), (2, 3));
    let corner = Intersection::from_sgf(1, 1);
    assert_eq!((corner.row, corner.col), (0, 0));
}

#[test]
fn neighbour_accessors_are_pure_arithmetic() {
    let i = Intersection::new(5, 7);
    assert_eq!((i.up().row, i.up().col), (6, 7));
    assert_eq!((i.down().row, i.down().col), (4, 7));
    assert_eq!((i.left().row, i.left().col), (5, 6));
    assert_eq!((i.right().row, i.right().col), (5, 8));
}

#[test]
fn diagram_labels_skip_the_ambiguous_letter() {
    assert_eq!(Intersection::new(0, 0).to_coord(), "a1");
    assert_eq!(Intersection::new(2, 2).to_coord(), "c3");
    // Column 7 is the last plain letter; column 8 jumps over the one that
    // a straight mapping would put there.
    assert_eq!(Intersection::new(0, 7).to_coord(), "h1");
    assert_eq!(Intersection::new(0, 8).to_coord(), "j1");
    assert_eq!(Intersection::new(18, 18).to_coord(), "t19");
    // Rows print as 1-based decimal numbers, also past one digit.
    assert_eq!(Intersection::new(9, 2).to_coord(), "c10");
    assert_eq!(Intersection::new(99, 0).to_coord(), "a100");
}

#[test]
fn intersections_order_lexicographically() {
    let a = Intersection::new(1, 5);
    let b = Intersection::new(2, 0);
    let c = Intersection::new(2, 3);
    assert!(a < b && b < c);
    assert_eq!(a, Intersection::new(1, 5));
}

#[test]
fn colors_have_lowercase_names() {
    assert_eq!(color_to_string(&Color::Black), "black");
    assert_eq!(color_to_string(&Color::White), "white");
}

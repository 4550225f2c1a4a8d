use quickhull::{line_dist, line_right, triangle_member, triangle_prot, Distance, Point};

/// Lattice point for coordinates given in tenths of a unit.
fn pt(x: f64, y: f64) -> Point {
    Point::new((x * 10.0).round() as i32, (y * 10.0).round() as i32)
}

#[test]
fn lib_test_line_right() {
    let line = (pt(1., -1.), pt(-1., 1.));
    assert!(line_right(line, pt(20., 10.)));
    assert!(!line_right(line, pt(-20., -10.)));
    assert!(line_right(line, pt(20., -10.)));
    assert!(!line_right(line, pt(-20., 10.)));
}

#[test]
fn main_test_line_right() {
    let line = (pt(1., -1.), pt(-1., 1.));
    assert!(line_right(line, pt(20., 10.)));
    assert!(!line_right(line, pt(-20., -10.)));
    assert!(line_right(line, pt(20., -10.)));
    assert!(!line_right(line, pt(-20., 10.)));
}

#[test]
fn test_triangle_member() {
    let a = pt(0., 1.);
    let b = pt(1., -1.);
    let c = pt(-1., -1.);
    let test_all_order = |p: Point| {
        triangle_member(a, b, c, p)
            && triangle_member(b, c, a, p)
            && triangle_member(c, a, b, p)
            && triangle_member(a, c, b, p)
            && triangle_member(b, a, c, p)
            && triangle_member(c, b, a, p)
    };
    assert!(test_all_order(Point::origin()));
    assert!(test_all_order(pt(0.1, 0.1)));
    assert!(!test_all_order(pt(5., 5.)));
    assert!(!test_all_order(pt(-5., 5.)));
    assert!(!test_all_order(pt(-5., -5.)));
}

#[test]
fn line_dist_numerator_is_twice_the_triangle_area() {
    let line = (Point::new(0, 0), Point::new(4, 0));
    assert_eq!(line_dist(line, Point::new(1, 3)).numerator, 12);
    assert_eq!(line_dist(line, Point::new(1, -3)).numerator, 12);
    assert_eq!(line_dist(line, Point::new(9, 0)).numerator, 0);
    assert_eq!(line_dist(line, Point::new(9, 0)).length_squared, 16);
}

/// The distance as a floating-point number.
fn quotient(d: Distance) -> f64 {
    d.numerator as f64 / (d.length_squared as f64).sqrt()
}

#[test]
fn line_dist_is_the_perpendicular_distance() {
    let line = (Point::new(0, 0), Point::new(3, 4));
    let d = line_dist(line, Point::new(0, 5));
    assert_eq!(
        d,
        Distance {
            numerator: 15,
            length_squared: 25
        }
    );
    assert_eq!(quotient(d), 3.0);
    assert_eq!(quotient(line_dist(line, Point::new(5, 0))), 4.0);
    assert_eq!(quotient(line_dist(line, Point::new(6, 8))), 0.0);
    let reversed = (Point::new(3, 4), Point::new(0, 0));
    assert_eq!(line_dist(reversed, Point::new(0, 5)), d);
    let shifted = (Point::new(-1, 2), Point::new(3, 2));
    assert_eq!(quotient(line_dist(shifted, Point::new(7, -5))), 7.0);
}

#[test]
fn line_dist_from_a_line_of_length_zero_has_no_value() {
    let line = (Point::new(3, 3), Point::new(3, 3));
    let d = line_dist(line, Point::new(9, -9));
    assert_eq!(
        d,
        Distance {
            numerator: 0,
            length_squared: 0
        }
    );
    assert!(quotient(d).is_nan());
}

#[test]
fn points_on_the_line_are_not_right_of_it() {
    let line = (Point::new(0, 0), Point::new(2, 2));
    assert!(!line_right(line, Point::new(1, 1)));
    assert!(!line_right(line, Point::new(5, 5)));
    assert!(!line_right(line, Point::new(0, 0)));
    assert!(line_right(line, Point::new(1, 0)));
    assert!(!line_right(line, Point::new(0, 1)));
}

#[test]
fn nothing_is_right_of_a_line_of_length_zero() {
    let line = (Point::new(3, 3), Point::new(3, 3));
    assert!(!line_right(line, Point::new(9, -9)));
    assert!(!line_right(line, Point::new(-9, 9)));
}

#[test]
fn triangle_sides_and_corners_are_outside() {
    let a = Point::new(0, 0);
    let b = Point::new(4, 0);
    let c = Point::new(0, 4);
    assert!(triangle_member(a, b, c, Point::new(1, 1)));
    assert!(!triangle_member(a, b, c, Point::new(2, 0)));
    assert!(!triangle_member(a, b, c, Point::new(2, 2)));
    assert!(!triangle_member(a, b, c, a));
    assert!(!triangle_member(a, b, b, Point::new(1, 0)));
}

#[test]
fn triangle_prot_needs_the_right_turn() {
    let a = Point::new(0, 0);
    let b = Point::new(4, 0);
    let c = Point::new(0, 4);
    let inside = Point::new(1, 1);
    assert!(!triangle_prot(a, b, c, inside));
    assert!(triangle_prot(c, b, a, inside));
}

#[test]
fn origin_is_the_zero_point() {
    assert_eq!(Point::origin(), Point::new(0, 0));
    assert_eq!(Point::new(-3, 8).x, -3);
    assert_eq!(Point::new(-3, 8).y, 8);
}

use quickhull::{
    furthest_from, line_dist, line_right, points_right_of, quickhull, quickhull_init,
    quickhull_recursive, Line, Point,
};

/// Lattice point for coordinates given in tenths of a unit.
fn pt(x: f64, y: f64) -> Point {
    Point::new((x * 10.0).round() as i32, (y * 10.0).round() as i32)
}

fn p(x: i32, y: i32) -> Point {
    Point::new(x, y)
}

fn scaled(points: &[Point], k: i32) -> Vec<Point> {
    points.iter().map(|q| p(q.x * k, q.y * k)).collect()
}

fn scaled_lines(lines: &[Line], k: i32) -> Vec<Line> {
    lines
        .iter()
        .map(|(a, b)| (p(a.x * k, a.y * k), p(b.x * k, b.y * k)))
        .collect()
}

/// The input points that are an end of some edge, in input order.
fn vertices_of(points: &[Point], lines: &[Line]) -> Vec<Point> {
    points
        .iter()
        .copied()
        .filter(|q| lines.iter().any(|(a, b)| a == q || b == q))
        .collect()
}

fn scattered() -> Vec<Point> {
    vec![
        p(3, 1),
        p(-4, 2),
        p(0, 0),
        p(7, -3),
        p(2, 8),
        p(-6, -5),
        p(1, -9),
        p(5, 5),
        p(-2, 6),
        p(0, -1),
        p(9, 2),
        p(-8, 0),
        p(4, -4),
        p(-3, -3),
        p(2, 2),
    ]
}

#[test]
fn empty_input_has_no_edges() {
    assert_eq!(quickhull(&[]), vec![]);
    assert_eq!(quickhull_init(&[]), None);
}

#[test]
fn single_point_gives_two_edges_of_length_zero() {
    let o = pt(0., 0.);
    assert_eq!(quickhull(&[o]), vec![(o, o), (o, o)]);
    let q = p(5, 5);
    assert_eq!(quickhull(&[q]), vec![(q, q), (q, q)]);
}

#[test]
fn equal_points_give_two_edges_of_length_zero() {
    let q = p(1, 1);
    assert_eq!(quickhull(&[q, q, q]), vec![(q, q), (q, q)]);
}

#[test]
fn square_with_interior_point() {
    let points = [pt(0., 0.), pt(1., 0.), pt(1., 1.), pt(0., 1.), pt(0.5, 0.5)];
    let hull = quickhull(&points);
    assert_eq!(
        hull,
        vec![
            (pt(1., 0.), pt(1., 1.)),
            (pt(0., 0.), pt(1., 0.)),
            (pt(0., 1.), pt(0., 0.)),
            (pt(1., 1.), pt(0., 1.)),
        ]
    );
    assert_eq!(hull.len(), 4);
    let inner = pt(0.5, 0.5);
    assert!(hull.iter().all(|(a, b)| *a != inner && *b != inner));
}

#[test]
fn collinear_points_give_the_segment_both_ways() {
    let points = [pt(0., 0.), pt(1., 0.), pt(2., 0.)];
    let hull = quickhull(&points);
    assert_eq!(
        hull,
        vec![(pt(0., 0.), pt(2., 0.)), (pt(2., 0.), pt(0., 0.))]
    );
    let middle = pt(1., 0.);
    assert!(hull.iter().all(|(a, b)| *a != middle && *b != middle));
}

#[test]
fn two_points_give_the_segment_both_ways() {
    let hull = quickhull(&[p(4, 7), p(-2, 1)]);
    assert_eq!(hull, vec![(p(-2, 1), p(4, 7)), (p(4, 7), p(-2, 1))]);
}

#[test]
fn last_of_the_furthest_points_splits_the_line() {
    let points = [p(0, 0), p(10, 0), p(3, -5), p(7, -5), p(5, -5)];
    assert_eq!(
        quickhull(&points),
        vec![
            (p(7, -5), p(10, 0)),
            (p(5, -5), p(7, -5)),
            (p(3, -5), p(5, -5)),
            (p(0, 0), p(3, -5)),
            (p(10, 0), p(0, 0)),
        ]
    );
    // Given in another order, the point in the middle is on no edge.
    let points = [p(0, 0), p(10, 0), p(5, -5), p(7, -5), p(3, -5)];
    assert_eq!(
        quickhull(&points),
        vec![
            (p(7, -5), p(10, 0)),
            (p(3, -5), p(7, -5)),
            (p(0, 0), p(3, -5)),
            (p(10, 0), p(0, 0)),
        ]
    );
}

#[test]
fn no_point_is_right_of_any_edge() {
    let points = scattered();
    let hull = quickhull(&points);
    assert!(!hull.is_empty());
    for edge in &hull {
        for q in &points {
            assert!(!line_right(*edge, *q));
        }
    }
}

#[test]
fn every_edge_joins_two_input_points() {
    let points = scattered();
    for (a, b) in quickhull(&points) {
        assert!(points.contains(&a));
        assert!(points.contains(&b));
    }
}

#[test]
fn scattered_points_have_the_expected_hull() {
    assert_eq!(
        quickhull(&scattered()),
        vec![
            (p(7, -3), p(9, 2)),
            (p(1, -9), p(7, -3)),
            (p(-6, -5), p(1, -9)),
            (p(-8, 0), p(-6, -5)),
            (p(-2, 6), p(-8, 0)),
            (p(2, 8), p(-2, 6)),
            (p(9, 2), p(2, 8)),
        ]
    );
}

#[test]
fn hull_of_the_vertices_is_the_hull() {
    let points = scattered();
    let hull = quickhull(&points);
    let vertices = vertices_of(&points, &hull);
    assert!(vertices.len() < points.len());
    assert_eq!(quickhull(&vertices), hull);

    let tied = [p(0, 0), p(10, 0), p(3, -5), p(7, -5), p(5, -5), p(5, -1)];
    let hull = quickhull(&tied);
    let vertices = vertices_of(&tied, &hull);
    assert_eq!(vertices.len(), 5);
    assert_eq!(quickhull(&vertices), hull);
}

#[test]
fn scaling_the_input_scales_the_hull() {
    let points = scattered();
    let hull = quickhull(&points);
    for k in [1, 2, 3, 10, 1000] {
        assert_eq!(quickhull(&scaled(&points, k)), scaled_lines(&hull, k));
    }
    let square = [pt(0., 0.), pt(1., 0.), pt(1., 1.), pt(0., 1.), pt(0.5, 0.5)];
    assert_eq!(
        quickhull(&scaled(&square, 7)),
        scaled_lines(&quickhull(&square), 7)
    );
}

#[test]
fn extreme_coordinates_do_not_overflow() {
    let lo = i32::MIN;
    let hi = i32::MAX;
    let points = [p(lo, lo), p(hi, hi), p(lo, hi), p(hi, lo), p(0, 0)];
    assert_eq!(
        quickhull(&points),
        vec![
            (p(hi, lo), p(hi, hi)),
            (p(lo, lo), p(hi, lo)),
            (p(lo, hi), p(lo, lo)),
            (p(hi, hi), p(lo, hi)),
        ]
    );
    let diagonal = (p(lo, lo), p(hi, hi));
    assert_eq!(line_dist(diagonal, p(hi, lo)).numerator, 18446744065119617025);
    assert_eq!(line_dist(diagonal, p(lo, hi)).numerator, 18446744065119617025);
    assert_eq!(line_dist(diagonal, p(0, 0)).length_squared, 36893488130239234050);
    assert!(line_right(diagonal, p(hi, lo)));
    assert!(!line_right(diagonal, p(lo, hi)));
}

#[test]
fn initial_line_runs_from_least_to_greatest() {
    assert_eq!(quickhull_init(&[p(3, 4)]), Some((p(3, 4), p(3, 4))));
    assert_eq!(
        quickhull_init(&[p(1, 5), p(1, -2), p(1, 9), p(1, 0)]),
        Some((p(1, -2), p(1, 9)))
    );
    assert_eq!(
        quickhull_init(&[p(2, 0), p(-7, 3), p(5, -1), p(-7, -3), p(5, 6)]),
        Some((p(-7, -3), p(5, 6)))
    );
    assert_eq!(
        quickhull_init(&scattered()),
        Some((p(-8, 0), p(9, 2)))
    );
}

#[test]
fn points_right_of_keeps_order_and_drops_points_on_the_line() {
    let line = (p(0, 0), p(10, 0));
    let points = [p(3, -5), p(4, 0), p(1, 1), p(20, -1), p(-3, -2), p(0, 0)];
    assert_eq!(
        points_right_of(&points, line),
        vec![p(3, -5), p(20, -1), p(-3, -2)]
    );
    let reversed = (p(10, 0), p(0, 0));
    assert_eq!(points_right_of(&points, reversed), vec![p(1, 1)]);
    let degenerate = (p(2, 2), p(2, 2));
    assert_eq!(points_right_of(&points, degenerate), vec![]);
}

#[test]
fn furthest_from_takes_the_last_of_equals() {
    let line = (p(0, 0), p(10, 0));
    assert_eq!(furthest_from(&[], line), None);
    assert_eq!(furthest_from(&[p(1, -1)], line), Some(p(1, -1)));
    assert_eq!(
        furthest_from(&[p(1, -1), p(2, -7), p(3, -2)], line),
        Some(p(2, -7))
    );
    assert_eq!(
        furthest_from(&[p(3, -5), p(7, -5), p(5, -5), p(1, -4)], line),
        Some(p(5, -5))
    );
    assert_eq!(
        furthest_from(&[p(3, 5), p(7, -5), p(1, 4)], line),
        Some(p(7, -5))
    );
}

#[test]
fn recursive_step_appends_to_what_is_there() {
    let points = [p(0, 0), p(4, 0), p(2, -3), p(2, 3)];
    let marker = (p(9, 9), p(8, 8));
    let mut out = vec![marker];
    quickhull_recursive(&points, (p(0, 0), p(4, 0)), &mut out);
    assert_eq!(
        out,
        vec![marker, (p(2, -3), p(4, 0)), (p(0, 0), p(2, -3))]
    );
    quickhull_recursive(&points, (p(4, 0), p(0, 0)), &mut out);
    assert_eq!(
        out,
        vec![
            marker,
            (p(2, -3), p(4, 0)),
            (p(0, 0), p(2, -3)),
            (p(2, 3), p(0, 0)),
            (p(4, 0), p(2, 3)),
        ]
    );
}

#[test]
fn edges_form_a_closed_walk() {
    let points = scattered();
    let hull = quickhull(&points);
    for (a, _) in &hull {
        assert_eq!(hull.iter().filter(|(_, b)| b == a).count(), 1);
    }
}

#[test]
fn vertices_in_general_position_may_come_in_any_order() {
    let points = [p(0, 0), p(4, 0), p(2, -3), p(2, 3), p(2, 1)];
    let hull = quickhull(&points);
    assert_eq!(
        hull,
        vec![
            (p(2, -3), p(4, 0)),
            (p(0, 0), p(2, -3)),
            (p(2, 3), p(0, 0)),
            (p(4, 0), p(2, 3)),
        ]
    );
    let shuffled = [p(2, 3), p(2, -3), p(4, 0), p(0, 0), p(2, 3)];
    assert_eq!(quickhull(&shuffled), hull);

    let points = scattered();
    let hull = quickhull(&points);
    let mut vertices = vertices_of(&points, &hull);
    vertices.reverse();
    assert_eq!(quickhull(&vertices), hull);
}

#[test]
fn the_order_of_vertices_on_one_line_matters() {
    let points = [p(0, 0), p(10, 0), p(3, -5), p(7, -5), p(5, -5)];
    let hull = quickhull(&points);
    assert_eq!(vertices_of(&points, &hull), points.to_vec());
    let reordered = [p(0, 0), p(10, 0), p(5, -5), p(7, -5), p(3, -5)];
    assert_ne!(quickhull(&reordered), hull);
}

#[test]
fn points_on_a_slanted_line_give_the_segment_both_ways() {
    let points = [p(0, 0), p(2, 2), p(1, 1), p(5, 5), p(-3, -3)];
    assert_eq!(
        quickhull(&points),
        vec![(p(-3, -3), p(5, 5)), (p(5, 5), p(-3, -3))]
    );
}

#[test]
fn points_on_an_upright_line_are_ordered_by_height() {
    let points = [p(1, 5), p(1, -2), p(1, 9), p(1, 0)];
    assert_eq!(
        quickhull(&points),
        vec![(p(1, -2), p(1, 9)), (p(1, 9), p(1, -2))]
    );
}

#[test]
fn triangle_has_three_edges_in_walking_order() {
    let points = [p(0, 0), p(4, 0), p(2, 3)];
    let hull = quickhull(&points);
    assert_eq!(
        hull,
        vec![(p(0, 0), p(4, 0)), (p(2, 3), p(0, 0)), (p(4, 0), p(2, 3))]
    );
    for i in 0..hull.len() {
        assert_eq!(hull[i].0, hull[(i + 1) % hull.len()].1);
    }
}

#[test]
fn equally_far_vertices_may_come_in_any_order() {
    let points = [p(0, 0), p(10, 0), p(3, -5), p(7, -5), p(5, -2)];
    let hull = quickhull(&points);
    assert_eq!(
        hull,
        vec![
            (p(7, -5), p(10, 0)),
            (p(3, -5), p(7, -5)),
            (p(0, 0), p(3, -5)),
            (p(10, 0), p(0, 0)),
        ]
    );
    assert_eq!(
        quickhull(&[p(7, -5), p(3, -5), p(10, 0), p(0, 0)]),
        hull
    );
    assert_eq!(
        quickhull(&[p(10, 0), p(3, -5), p(0, 0), p(7, -5), p(3, -5)]),
        hull
    );
}

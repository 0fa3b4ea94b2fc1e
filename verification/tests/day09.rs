use aoc2025::day09::{
    build_allowed_prefix, checked_area_tiles, coordinate_lines, largest_interior_tiles,
    largest_tiles, parse_points, point_in_poly_even_odd, rect_area_tiles, rect_sum, solve,
    solve_part_1, span_fits, Point2D, PointError, SearchError,
};

fn lines_of(text: &str) -> Vec<String> {
    text.lines()
        .map(|line| line.trim().to_string())
        .filter(|line| !line.is_empty())
        .collect()
}

fn pt(x: i64, y: i64) -> Point2D {
    Point2D { x, y }
}

fn example() -> Vec<Point2D> {
    vec![
        pt(7, 1),
        pt(11, 1),
        pt(11, 7),
        pt(9, 7),
        pt(9, 5),
        pt(2, 5),
        pt(2, 3),
        pt(7, 3),
    ]
}

#[test]
fn day09_test_part_1() {
    let input_str = "
            7,1
            11,1
            11,7
            9,7
            9,5
            2,5
            2,3
            7,3";
    let input: Vec<String> = lines_of(input_str);

    let result = solve(&input).unwrap();
    assert_eq!(result, 24);
}

#[test]
fn largest_rectangle_of_any_kind_in_the_example() {
    let input: Vec<String> = lines_of("7,1\n11,1\n11,7\n9,7\n9,5\n2,5\n2,3\n7,3");
    assert_eq!(solve_part_1(&input), Ok(50));
    assert_eq!(largest_tiles(&example()), Ok(50));
}

#[test]
fn tile_area_counts_both_borders() {
    assert_eq!(rect_area_tiles(&pt(2, 5), &pt(9, 7)), 24);
    assert_eq!(rect_area_tiles(&pt(9, 7), &pt(2, 5)), 24);
    assert_eq!(rect_area_tiles(&pt(2, 5), &pt(11, 1)), 50);
    assert_eq!(rect_area_tiles(&pt(3, 3), &pt(3, 3)), 1);
    assert_eq!(rect_area_tiles(&pt(-4, 0), &pt(5, 0)), 10);
    for (a, b) in [(pt(0, 0), pt(3, 4)), (pt(-7, 2), pt(1, -9)), (pt(5, 5), pt(5, 9))] {
        let direct = ((a.x - b.x).abs() + 1) * ((a.y - b.y).abs() + 1);
        assert_eq!(rect_area_tiles(&a, &b), direct);
        assert_eq!(checked_area_tiles(&a, &b), Some(direct));
    }
}

#[test]
fn tile_area_that_does_not_fit_is_refused() {
    let a = pt(i64::MIN, i64::MIN);
    let b = pt(i64::MAX, i64::MAX);
    assert_eq!(checked_area_tiles(&a, &b), None);
    assert_eq!(checked_area_tiles(&pt(0, 0), &pt(3_037_000_499, 3_037_000_499)), None);
    assert_eq!(
        checked_area_tiles(&pt(0, 0), &pt(3_037_000_498, 3_037_000_498)),
        Some(3_037_000_499 * 3_037_000_499)
    );
    assert_eq!(largest_tiles(&vec![a, b]), Err(SearchError::SpanTooLarge));
    assert_eq!(largest_interior_tiles(&vec![a, b]), Err(SearchError::SpanTooLarge));
    assert!(!span_fits(&vec![a, b]));
    assert!(span_fits(&example()));
}

#[test]
fn search_twice_gives_the_same() {
    let poly = example();
    let first = largest_interior_tiles(&poly);
    let second = largest_interior_tiles(&poly);
    assert_eq!(first, Ok(24));
    assert_eq!(first, second);
}

#[test]
fn points_on_edges_and_corners_are_inside() {
    let poly = example();
    // doubled coordinates: (9, 1) on the bottom edge, (11, 4) on the right edge
    assert!(point_in_poly_even_odd((18, 2), &poly));
    assert!(point_in_poly_even_odd((22, 8), &poly));
    // the corner (2, 3) and the reflex corner (7, 3)
    assert!(point_in_poly_even_odd((4, 6), &poly));
    assert!(point_in_poly_even_odd((14, 6), &poly));
    // the half-way point (4.5, 3) of the edge from (2, 3) to (7, 3)
    assert!(point_in_poly_even_odd((9, 6), &poly));
}

#[test]
fn points_off_the_polygon_are_classified_by_parity() {
    let poly = example();
    // (4.5, 4) inside the left arm, (4.5, 2) in the notch below it
    assert!(point_in_poly_even_odd((9, 8), &poly));
    assert!(!point_in_poly_even_odd((9, 4), &poly));
    // (10, 6) inside the upper right part, (5.5, 6) left of it and outside
    assert!(point_in_poly_even_odd((20, 12), &poly));
    assert!(!point_in_poly_even_odd((11, 12), &poly));
    // (9, 4) inside, well away from every edge
    assert!(point_in_poly_even_odd((18, 8), &poly));
}

#[test]
fn grid_lines_are_sorted_and_distinct() {
    let (xs, ys) = coordinate_lines(&example());
    assert_eq!(xs, vec![2, 7, 9, 11]);
    assert_eq!(ys, vec![1, 3, 5, 7]);
    let (xs, ys) = coordinate_lines(&Vec::new());
    assert!(xs.is_empty());
    assert!(ys.is_empty());
}

#[test]
fn prefix_table_of_the_example() {
    let (xs, ys, p) = build_allowed_prefix(&example());
    assert_eq!(xs, vec![2, 7, 9, 11]);
    assert_eq!(ys, vec![1, 3, 5, 7]);
    // cells, bottom row first: . # #   /   # # #   /   . . #
    // sizes of the columns 5 2 2, of the rows 2 2 2
    assert_eq!(
        p,
        vec![
            vec![0, 0, 0, 0],
            vec![0, 0, 4, 8],
            vec![0, 10, 18, 26],
            vec![0, 10, 18, 30],
        ]
    );
    assert_eq!(rect_sum(&p, 0, 0, 3, 3), 30);
    assert_eq!(rect_sum(&p, 0, 1, 2, 2), 14);
    assert_eq!(rect_sum(&p, 1, 0, 3, 3), 20);
    assert_eq!(rect_sum(&p, 0, 0, 1, 1), 0);
    assert_eq!(rect_sum(&p, 2, 2, 3, 3), 4);
    assert_eq!(rect_sum(&p, 1, 1, 1, 1), 0);
}

#[test]
fn prefix_table_without_cells() {
    let (xs, ys, p) = build_allowed_prefix(&Vec::new());
    assert!(xs.is_empty() && ys.is_empty());
    assert_eq!(p, vec![vec![0]]);
    let (xs, ys, p) = build_allowed_prefix(&vec![pt(1, 5), pt(4, 5), pt(9, 5)]);
    assert_eq!(xs, vec![1, 4, 9]);
    assert_eq!(ys, vec![5]);
    assert_eq!(p, vec![vec![0, 0, 0]]);
}

#[test]
fn single_point_gives_zero() {
    assert_eq!(largest_interior_tiles(&vec![pt(0, 0)]), Ok(0));
    assert_eq!(solve(&vec!["0,0".to_string()]), Ok(0));
    assert_eq!(largest_interior_tiles(&vec![pt(0, 0), pt(0, 0), pt(0, 0)]), Ok(0));
    assert_eq!(largest_interior_tiles(&Vec::new()), Ok(0));
    assert_eq!(solve(&Vec::new()), Ok(0));
}

#[test]
fn too_few_vertices_for_a_pair() {
    assert_eq!(largest_tiles(&Vec::new()), Err(SearchError::TooFewVertices));
    assert_eq!(largest_tiles(&vec![pt(3, 4)]), Err(SearchError::TooFewVertices));
    assert_eq!(solve_part_1(&vec!["3,4".to_string()]), Err(SearchError::TooFewVertices));
    assert_eq!(largest_tiles(&vec![pt(3, 4), pt(3, 4)]), Ok(1));
}

#[test]
fn collinear_vertices_span_no_rectangle() {
    let row = vec![pt(0, 2), pt(5, 2), pt(9, 2)];
    assert_eq!(largest_interior_tiles(&row), Ok(0));
    let column = vec![pt(4, 0), pt(4, 8)];
    assert_eq!(largest_interior_tiles(&column), Ok(0));
    // part one counts the tiles of the line itself
    assert_eq!(largest_tiles(&row), Ok(10));
}

#[test]
fn plain_rectangle_is_its_own_answer() {
    let square = vec![pt(0, 0), pt(4, 0), pt(4, 3), pt(0, 3)];
    assert_eq!(largest_interior_tiles(&square), Ok(20));
    assert_eq!(largest_tiles(&square), Ok(20));
}

#[test]
fn rectangle_across_a_notch_is_rejected() {
    // a U shape: the rectangle between the two upper outer corners spans the gap
    let u = vec![
        pt(0, 0),
        pt(9, 0),
        pt(9, 6),
        pt(6, 6),
        pt(6, 2),
        pt(3, 2),
        pt(3, 6),
        pt(0, 6),
    ];
    assert_eq!(largest_tiles(&u), Ok(70));
    // the best interior one is an arm, (0,0)-(3,6), with 28 tiles; the base reaches only
    // from a lower corner to a notch corner, 21 tiles
    assert_eq!(largest_interior_tiles(&u), Ok(28));
}

#[test]
fn far_away_polygon_with_small_span() {
    let far = 4_000_000_000_000_000_000i64;
    let square = vec![pt(far, -far), pt(far + 4, -far), pt(far + 4, -far + 3), pt(far, -far + 3)];
    assert_eq!(largest_interior_tiles(&square), Ok(20));
}

#[test]
fn vertex_lines_are_parsed() {
    assert_eq!(Point2D::from_string("7,1"), Ok(pt(7, 1)));
    assert_eq!(Point2D::from_string("  -12 , +5 "), Ok(pt(-12, 5)));
    assert_eq!(
        Point2D::from_string("9223372036854775807,-9223372036854775808"),
        Ok(pt(i64::MAX, i64::MIN))
    );
    assert_eq!(Point2D::from_string("\u{a0}3,\u{3000}4\t"), Ok(pt(3, 4)));
}

#[test]
fn malformed_vertex_lines_are_told_apart() {
    assert_eq!(Point2D::from_string(""), Err(PointError::FieldCount));
    assert_eq!(Point2D::from_string("12"), Err(PointError::FieldCount));
    assert_eq!(Point2D::from_string("1,2,3"), Err(PointError::FieldCount));
    assert_eq!(Point2D::from_string(",2"), Err(PointError::BadX));
    assert_eq!(Point2D::from_string("x,2"), Err(PointError::BadX));
    assert_eq!(Point2D::from_string("1 2,3"), Err(PointError::BadX));
    assert_eq!(Point2D::from_string("9223372036854775808,3"), Err(PointError::BadX));
    assert_eq!(Point2D::from_string("-,3"), Err(PointError::BadX));
    assert_eq!(Point2D::from_string("1,"), Err(PointError::BadY));
    assert_eq!(Point2D::from_string("1,2.5"), Err(PointError::BadY));
    assert_eq!(Point2D::from_string("1,-9223372036854775809"), Err(PointError::BadY));
    assert_eq!(Point2D::from_string("a,b"), Err(PointError::BadX));
}

#[test]
fn malformed_lines_are_left_out() {
    let lines: Vec<String> =
        vec!["7,1", "oops", "11,1", "", "1,2,3", "11,7"].into_iter().map(String::from).collect();
    assert_eq!(parse_points(&lines), vec![pt(7, 1), pt(11, 1), pt(11, 7)]);
}

#[test]
fn points_beyond_the_bounding_box_are_outside() {
    let poly = example();
    assert!(!point_in_poly_even_odd((0, 8), &poly));
    assert!(!point_in_poly_even_odd((40, 8), &poly));
    assert!(!point_in_poly_even_odd((18, 0), &poly));
    assert!(!point_in_poly_even_odd((18, 40), &poly));
    assert!(!point_in_poly_even_odd((i128::MAX, 8), &poly));
    assert!(!point_in_poly_even_odd((i128::MIN, 8), &poly));
    assert!(!point_in_poly_even_odd((18, i128::MIN), &poly));
    assert!(!point_in_poly_even_odd((18, i128::MAX), &poly));
    assert!(!point_in_poly_even_odd((18, 8), &Vec::new()));
}

#[test]
fn slanted_edges_are_met_where_they_cross_the_height() {
    // a triangle with the slanted edge from (0, 0) to (8, 8)
    let triangle = vec![pt(0, 0), pt(8, 0), pt(8, 8)];
    // (6, 3) lies right of the slanted edge, inside; (2, 3) left of it, outside
    assert!(point_in_poly_even_odd((12, 6), &triangle));
    assert!(!point_in_poly_even_odd((4, 6), &triangle));
    // (2.5, 3) and (3.5, 3) on either side of the crossing at x = 3
    assert!(!point_in_poly_even_odd((5, 6), &triangle));
    assert!(point_in_poly_even_odd((7, 6), &triangle));
    // (3, 3) on the slanted edge: the edge is not met strictly to the right, the
    // right side of the triangle is, so the parity counts the point as inside
    assert!(point_in_poly_even_odd((6, 6), &triangle));
}

/// The search without any shortcut: every pair is put to the containment test.
fn exhaustive(poly: &Vec<Point2D>) -> i64 {
    let (xs, ys, p) = build_allowed_prefix(poly);
    let mut best = 0;
    for i in 0..poly.len() {
        for j in (i + 1)..poly.len() {
            let (a, b) = (poly[i], poly[j]);
            if a.x == b.x || a.y == b.y {
                continue;
            }
            let ix1 = xs.binary_search(&a.x.min(b.x)).unwrap();
            let ix2 = xs.binary_search(&a.x.max(b.x)).unwrap();
            let iy1 = ys.binary_search(&a.y.min(b.y)).unwrap();
            let iy2 = ys.binary_search(&a.y.max(b.y)).unwrap();
            let whole = ((a.x - b.x).abs() as i128) * ((a.y - b.y).abs() as i128);
            if rect_sum(&p, ix1, iy1, ix2, iy2) == whole {
                best = best.max(rect_area_tiles(&a, &b));
            }
        }
    }
    best
}

#[test]
fn the_shortcut_does_not_change_the_result() {
    let u = vec![
        pt(0, 0),
        pt(9, 0),
        pt(9, 6),
        pt(6, 6),
        pt(6, 2),
        pt(3, 2),
        pt(3, 6),
        pt(0, 6),
    ];
    let stairs = vec![
        pt(0, 0),
        pt(12, 0),
        pt(12, 3),
        pt(8, 3),
        pt(8, 6),
        pt(4, 6),
        pt(4, 9),
        pt(0, 9),
    ];
    for poly in [example(), u, stairs] {
        // in every order of the vertices along the loop
        for shift in 0..poly.len() {
            let mut turned = poly.clone();
            turned.rotate_left(shift);
            assert_eq!(largest_interior_tiles(&turned), Ok(exhaustive(&turned)));
            turned.reverse();
            assert_eq!(largest_interior_tiles(&turned), Ok(exhaustive(&turned)));
        }
    }
    assert_eq!(exhaustive(&example()), 24);
}

fn plus() -> Vec<Point2D> {
    let k = 1_000_000_000i64;
    vec![
        pt(k, 0),
        pt(3 * k, 0),
        pt(3 * k, k),
        pt(4 * k, k),
        pt(4 * k, 3 * k),
        pt(3 * k, 3 * k),
        pt(3 * k, 4 * k),
        pt(k, 4 * k),
        pt(k, 3 * k),
        pt(0, 3 * k),
        pt(0, k),
        pt(k, k),
    ]
}

#[test]
fn wide_polygon_whose_pairs_all_fit() {
    // the bounding box holds more tiles than an i64 counts, no pair of vertices does
    let poly = plus();
    assert_eq!(largest_interior_tiles(&poly), Ok(8_000_000_006_000_000_001));
    assert_eq!(largest_interior_tiles(&poly), Ok(exhaustive(&poly)));
    // from a corner of one arm to the far corner of the next: not interior
    assert_eq!(largest_tiles(&poly), Ok(9_000_000_006_000_000_001));
    assert!(span_fits(&poly));
    let lines: Vec<String> = poly.iter().map(|p| format!("{},{}", p.x, p.y)).collect();
    assert_eq!(solve(&lines), Ok(8_000_000_006_000_000_001));
}

#[test]
fn areas_beyond_i64_are_held_in_the_table() {
    let side = 4_000_000_000i64;
    let square = vec![pt(0, 0), pt(side, 0), pt(side, side), pt(0, side)];
    let (xs, ys, p) = build_allowed_prefix(&square);
    assert_eq!(xs, vec![0, side]);
    assert_eq!(ys, vec![0, side]);
    assert_eq!(p, vec![vec![0, 0], vec![0, 16_000_000_000_000_000_000]]);
    assert_eq!(rect_sum(&p, 0, 0, 1, 1), 16_000_000_000_000_000_000);
    // the square itself covers more tiles than an i64 counts
    assert_eq!(largest_interior_tiles(&square), Err(SearchError::SpanTooLarge));
    // spans of the whole i64 range still fit the table
    let half = i64::MAX / 2;
    let big = vec![pt(-half, -half), pt(half, -half), pt(half, half), pt(-half, half)];
    assert!(span_fits(&big));
    let (_, _, p) = build_allowed_prefix(&big);
    let whole = (2 * half as i128) * (2 * half as i128);
    assert_eq!(p, vec![vec![0, 0], vec![0, whole]]);
}

#[test]
fn far_apart_vertices_in_one_row_span_no_rectangle() {
    let row = vec![pt(i64::MIN, 7), pt(i64::MAX, 7)];
    assert_eq!(largest_interior_tiles(&row), Ok(0));
    assert_eq!(largest_tiles(&row), Err(SearchError::SpanTooLarge));
    let column = vec![pt(-3, i64::MIN), pt(-3, 0), pt(-3, i64::MAX)];
    assert_eq!(largest_interior_tiles(&column), Ok(0));
    assert!(span_fits(&row) && span_fits(&column));
    // one step off the row, and a pair spans too many tiles
    let bent = vec![pt(i64::MIN, 7), pt(i64::MAX, 7), pt(0, 8)];
    assert_eq!(largest_interior_tiles(&bent), Err(SearchError::SpanTooLarge));
    let far = vec![pt(i64::MIN, i64::MIN), pt(i64::MAX, i64::MIN), pt(i64::MAX, i64::MAX)];
    assert!(!span_fits(&far));
    assert_eq!(largest_interior_tiles(&far), Err(SearchError::SpanTooLarge));
}

#[test]
fn slanted_edges_as_long_as_the_coordinates_reach() {
    // a triangle below the diagonal from the lowest to the highest corner
    let far = vec![pt(i64::MIN, i64::MIN), pt(i64::MAX, i64::MIN), pt(i64::MAX, i64::MAX)];
    // (1, 0) right of the diagonal, (-1, 0) left of it, (0, 0) on it
    assert!(point_in_poly_even_odd((2, 0), &far));
    assert!(!point_in_poly_even_odd((-2, 0), &far));
    assert!(point_in_poly_even_odd((0, 0), &far));
    // half a step to either side of the diagonal
    assert!(point_in_poly_even_odd((1, 0), &far));
    assert!(!point_in_poly_even_odd((-1, 0), &far));
    // near the far corners
    let top = 2 * (i64::MAX as i128);
    let bottom = 2 * (i64::MIN as i128);
    assert!(point_in_poly_even_odd((top - 1, top - 3), &far));
    assert!(!point_in_poly_even_odd((top - 3, top - 1), &far));
    assert!(point_in_poly_even_odd((bottom + 3, bottom + 1), &far));
    assert!(!point_in_poly_even_odd((bottom + 1, bottom + 3), &far));
    // on the edges along the axes, and beyond them
    assert!(point_in_poly_even_odd((0, bottom), &far));
    assert!(point_in_poly_even_odd((top, 0), &far));
    assert!(!point_in_poly_even_odd((0, bottom - 1), &far));
    assert!(!point_in_poly_even_odd((top + 1, 0), &far));
    // the same triangle walked the other way round
    let back: Vec<Point2D> = far.iter().rev().cloned().collect();
    assert!(point_in_poly_even_odd((1, 0), &back));
    assert!(!point_in_poly_even_odd((-1, 0), &back));
}

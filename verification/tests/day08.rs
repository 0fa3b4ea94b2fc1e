use aoc2025::day08::{
    build_distance_table, connect, count_circuits, larger_first, multiply_three, parse_points,
    solve, wire, CircuitError, Outcome, Point3D, PointError,
};
use std::cmp::Ordering;

fn lines_of(text: &str) -> Vec<String> {
    text.lines()
        .map(|line| line.trim().to_string())
        .filter(|line| !line.is_empty())
        .collect()
}

fn p3(x: i64, y: i64, z: i64) -> Point3D {
    Point3D { x, y, z }
}

const EXAMPLE: &str = "
            162,817,812
            57,618,57
            906,360,560
            592,479,940
            352,342,300
            466,668,158
            542,29,236
            431,825,988
            739,650,466
            52,470,668
            216,146,977
            819,987,18
            117,168,530
            805,96,715
            346,949,466
            970,615,88
            941,993,340
            862,61,35
            984,92,344
            425,690,689";

#[test]
fn day08_test_part_1() {
    let input: Vec<String> = lines_of(EXAMPLE);

    // the ten shortest connections of the example
    let result = connect(&parse_points(&input), 10).unwrap().product;
    assert_eq!(result, 40);
}

#[test]
fn wiring_on_until_one_circuit_is_left() {
    let input: Vec<String> = lines_of(EXAMPLE);
    // with links to spare all twenty boxes end in one circuit
    assert_eq!(solve(&input), Ok(20));
    let out = connect(&parse_points(&input), 10000).unwrap();
    assert_eq!(out.product, 20);
    // the closing link joins the boxes 216,146,977 and 117,168,530
    assert_eq!(out.closing, Some((10, 12)));
    let ten = connect(&parse_points(&input), 10).unwrap();
    assert_eq!(ten.closing, None);
}

#[test]
fn squared_distance() {
    assert_eq!(p3(0, 0, 0).sqd_dist(&p3(1, 2, 3)), Some(14));
    assert_eq!(p3(1, 2, 3).sqd_dist(&p3(0, 0, 0)), Some(14));
    assert_eq!(p3(5, 5, 5).sqd_dist(&p3(5, 5, 5)), Some(0));
    assert_eq!(p3(-3, 0, 0).sqd_dist(&p3(4, 0, 0)), Some(49));
    assert_eq!(p3(162, 817, 812).sqd_dist(&p3(425, 690, 689)), Some(100427));
    assert_eq!(p3(0, 0, 0).sqd_dist(&p3(3_037_000_499, 0, 0)), Some(9223372030926249001));
    assert_eq!(p3(0, 0, 0).sqd_dist(&p3(3_037_000_500, 0, 0)), None);
    assert_eq!(p3(i64::MIN, 0, 0).sqd_dist(&p3(i64::MAX, 0, 0)), None);
    assert_eq!(p3(0, 0, 0).sqd_dist(&p3(2_000_000_000, 2_000_000_000, 2_000_000_000)), None);
}

#[test]
fn boxes_are_parsed() {
    assert_eq!(Point3D::from_string("162,817,812"), Ok(p3(162, 817, 812)));
    assert_eq!(Point3D::from_string(" -1 , +2 ,3 "), Ok(p3(-1, 2, 3)));
    assert_eq!(Point3D::from_string("1,2"), Err(PointError::FieldCount));
    assert_eq!(Point3D::from_string("1,2,3,4"), Err(PointError::FieldCount));
    assert_eq!(Point3D::from_string(""), Err(PointError::FieldCount));
    assert_eq!(Point3D::from_string("a,2,3"), Err(PointError::BadX));
    assert_eq!(Point3D::from_string("1,,3"), Err(PointError::BadY));
    assert_eq!(Point3D::from_string("1,2,3.0"), Err(PointError::BadZ));
    let lines: Vec<String> = vec!["1,2,3".into(), "nothing".into(), "4,5,6".into()];
    assert_eq!(parse_points(&lines), vec![p3(1, 2, 3), p3(4, 5, 6)]);
}

#[test]
fn later_pair_replaces_an_earlier_one_at_the_same_distance() {
    // 0-1 and 2-3 both lie at squared distance 1; 0-2 and 1-3 at 10000, 0-3 and 1-2 more
    let boxes = vec![p3(0, 0, 0), p3(1, 0, 0), p3(0, 100, 0), p3(1, 100, 0)];
    let table = build_distance_table(&boxes).unwrap();
    let mut entries: Vec<(i64, (usize, usize))> = table.into_iter().collect();
    entries.sort();
    assert_eq!(entries, vec![(1, (2, 3)), (10000, (1, 3)), (10001, (1, 2))]);
    // so 0 and 1 are never wired: after three links box 0 is still alone
    assert_eq!(connect(&boxes, 3), Ok(Outcome { product: 3, closing: None }));
    assert_eq!(connect(&boxes, 4), Err(CircuitError::LinksExhausted));
    assert_eq!(connect(&boxes, 1), Ok(Outcome { product: 2, closing: None }));
    assert_eq!(connect(&boxes, 0), Ok(Outcome { product: 1, closing: None }));
}

#[test]
fn too_few_boxes_to_wire() {
    assert_eq!(connect(&Vec::new(), 1), Err(CircuitError::LinksExhausted));
    assert_eq!(connect(&vec![p3(1, 1, 1)], 1), Err(CircuitError::LinksExhausted));
    assert_eq!(connect(&Vec::new(), 0), Ok(Outcome { product: 1, closing: None }));
    assert_eq!(connect(&vec![p3(1, 1, 1)], 0), Ok(Outcome { product: 1, closing: None }));
    assert_eq!(solve(&Vec::new()), Err(CircuitError::LinksExhausted));
    assert_eq!(
        connect(&vec![p3(0, 0, 0), p3(9, 9, 9)], 5),
        Ok(Outcome { product: 2, closing: Some((0, 1)) })
    );
}

#[test]
fn boxes_too_far_apart() {
    let far = vec![p3(0, 0, 0), p3(4_000_000_000, 0, 0)];
    assert_eq!(connect(&far, 1), Err(CircuitError::DistanceOverflow));
    assert!(build_distance_table(&far).is_none());
}

#[test]
fn wiring_step_by_step() {
    let links = vec![(0, 1), (2, 3), (1, 3)];
    let w = wire(4, &links, 1);
    assert_eq!(w.circuits, vec![0, 0, 2, 3]);
    assert_eq!((w.closing, w.exhausted), (None, false));
    let w = wire(4, &links, 2);
    assert_eq!(w.circuits, vec![0, 0, 2, 2]);
    let w = wire(4, &links, 3);
    assert_eq!(w.circuits, vec![0, 0, 0, 0]);
    assert_eq!((w.closing, w.exhausted), (Some((1, 3)), false));
    let w = wire(4, &links, 9);
    assert_eq!((w.closing, w.exhausted), (Some((1, 3)), false));
    let w = wire(5, &links, 9);
    assert_eq!(w.circuits, vec![0, 0, 0, 0, 4]);
    assert_eq!((w.closing, w.exhausted), (None, true));
}

#[test]
fn sizes_and_products() {
    let mut sizes = count_circuits(&vec![0, 0, 2, 2, 2, 5]);
    sizes.sort();
    assert_eq!(sizes, vec![1, 2, 3]);
    let mut sizes = count_circuits(&vec![3, 3, 3, 3]);
    sizes.sort();
    assert_eq!(sizes, vec![4]);
    let mut sizes = count_circuits(&vec![1, 1, 3, 3, 4]);
    sizes.sort();
    assert_eq!(sizes, vec![1, 2, 2]);
    assert_eq!(count_circuits(&Vec::new()), Vec::<usize>::new());
    assert_eq!(multiply_three(&vec![5, 4, 2, 2, 1]), Some(40));
    assert_eq!(multiply_three(&vec![20]), Some(20));
    assert_eq!(multiply_three(&vec![7, 3]), Some(21));
    assert_eq!(multiply_three(&Vec::new()), Some(1));
    assert_eq!(multiply_three(&vec![5, 0, 7]), Some(0));
    assert_eq!(multiply_three(&vec![0]), Some(0));
    assert_eq!(multiply_three(&vec![usize::MAX, usize::MAX, 0]), Some(0));
    assert_eq!(multiply_three(&vec![usize::MAX, 1, 1, 0]), None);
    assert_eq!(multiply_three(&vec![6, 5, 4, 0]), Some(120));
    assert_eq!(multiply_three(&vec![3_000_000, 3_000_000, 3_000_000]), None);
    assert_eq!(
        multiply_three(&vec![2_000_000, 2_000_000, 2_000_000]),
        Some(8_000_000_000_000_000_000)
    );
}

#[test]
fn the_three_largest_whatever_the_order_of_the_circuits() {
    // circuits of the sizes 1, 3 and 2, named 0, 1 and 4: the smallest comes first by name
    let boxes = vec![
        p3(0, 0, 0),
        p3(100, 0, 0),
        p3(101, 0, 0),
        p3(102, 0, 0),
        p3(500, 0, 0),
        p3(503, 0, 0),
        p3(900, 0, 0),
        p3(910, 0, 0),
        p3(920, 0, 0),
        p3(930, 0, 0),
    ];
    // links at squared distance 1 (twice, the later pair kept), 4, 9, 100 (three, the last kept)
    let out = connect(&boxes, 4).unwrap();
    // kept links: 2-3 (1), 1-3 (4), 4-5 (9), 8-9 (100): circuits {1,2,3}, {4,5}, {8,9} and four single boxes
    assert_eq!(out.product, 12);
    assert_eq!(larger_first(&5, &2), Ordering::Less);
    assert_eq!(larger_first(&2, &5), Ordering::Greater);
    assert_eq!(larger_first(&4, &4), Ordering::Equal);
}

#[test]
fn links_come_in_order_of_distance() {
    // squared distances 9, 1, 4 and their sums, entered out of order
    let boxes = vec![p3(0, 0, 0), p3(3, 0, 0), p3(3, 1, 0), p3(3, 1, 2)];
    let table = build_distance_table(&boxes).unwrap();
    assert_eq!(aoc2025::ordered::sorted_keys(&table), vec![1, 4, 5, 9, 10, 14]);
    assert_eq!(
        aoc2025::ordered::values_in_key_order(&table),
        vec![(1, 2), (2, 3), (1, 3), (0, 1), (0, 2), (0, 3)]
    );
    // the closest pair first: boxes 1 and 2
    assert_eq!(wire(4, &aoc2025::ordered::values_in_key_order(&table), 1).circuits, vec![0, 1, 1, 3]);
}

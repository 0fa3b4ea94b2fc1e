use aoc2025::day04::{
    accessible_rolls, byte_rows, check_grid, explore, part2, solve04, GridError,
};

fn example() -> Vec<String> {
    vec![
        String::from("..@@.@@@@."),
        String::from("@@@.@.@.@@"),
        String::from("@@@@@.@.@@"),
        String::from("@.@@@@..@."),
        String::from("@@.@@@@.@@"),
        String::from(".@@@@@@@.@"),
        String::from(".@.@.@.@@@"),
        String::from("@.@@@.@@@@"),
        String::from(".@@@@@@@@."),
        String::from("@.@.@@@.@."),
    ]
}

fn grid(rows: &[&str]) -> Vec<Vec<u8>> {
    rows.iter().map(|r| r.as_bytes().to_vec()).collect()
}

#[test]
fn day04_test_part_1() {
    let input = example();
    let result = solve04(&input).unwrap();
    assert_eq!(result, 13);
}

#[test]
fn rounds_of_the_example() {
    let mut matrix = byte_rows(&example());
    assert_eq!(part2(&mut matrix), Some(43));
    let left: Vec<String> =
        matrix.iter().map(|r| String::from_utf8(r.clone()).unwrap()).collect();
    assert_eq!(
        left,
        vec![
            "..........",
            "..........",
            "..........",
            "....@@....",
            "...@@@@...",
            "...@@@@@..",
            "...@.@.@@.",
            "...@@.@@@.",
            "...@@@@@..",
            "....@@@...",
        ]
    );
    // nothing more can be taken
    assert_eq!(part2(&mut matrix), Some(0));
}

#[test]
fn fewer_than_four_neighbours() {
    let g = grid(&["@@@", "@@@", "@@@"]);
    assert!(explore(&g, 0, 0, 3, 3));
    assert!(!explore(&g, 0, 1, 3, 3));
    assert!(!explore(&g, 1, 1, 3, 3));
    assert!(explore(&g, 2, 2, 3, 3));
    let g = grid(&["@.@", ".@.", "@.."]);
    assert!(explore(&g, 1, 1, 3, 3));
    let g = grid(&["@.@", ".@.", "@.@"]);
    assert!(!explore(&g, 1, 1, 3, 3));
    // the place itself is not looked at
    let g = grid(&["@.@", "...", "@.@"]);
    assert!(!explore(&g, 1, 1, 3, 3));
}

#[test]
fn rolls_that_can_be_taken() {
    let g = grid(&["@@@", "@@@", "@@@"]);
    assert_eq!(accessible_rolls(&g), vec![(0, 0), (0, 2), (2, 0), (2, 2)]);
    let g = grid(&["...", ".@.", "..."]);
    assert_eq!(accessible_rolls(&g), vec![(1, 1)]);
    let g = grid(&["", ""]);
    assert_eq!(accessible_rolls(&g), Vec::new());
}

#[test]
fn a_full_square_is_cleared_from_the_corners() {
    let mut g = grid(&["@@@", "@@@", "@@@"]);
    // corners first, then the four edges (each left with three neighbours), then the centre
    assert_eq!(part2(&mut g), Some(9));
    assert_eq!(g, grid(&["...", "...", "..."]));
    let mut g = grid(&["@"]);
    assert_eq!(part2(&mut g), Some(1));
    let mut g = grid(&["."]);
    assert_eq!(part2(&mut g), Some(0));
}

#[test]
fn grids_that_cannot_be_counted() {
    assert_eq!(solve04(&Vec::new()), Err(GridError::Empty));
    assert_eq!(
        solve04(&vec![String::from("@@@"), String::from("@@")]),
        Err(GridError::ShortRow)
    );
    assert!(check_grid(&grid(&["@@", "@@@"])));
    assert!(!check_grid(&grid(&["@@@", "@@"])));
    assert!(!check_grid(&Vec::new()));
    // what lies beyond the width of the first row is not looked at
    assert_eq!(solve04(&vec![String::from("@"), String::from("@@@@@")]), Ok(2));
}

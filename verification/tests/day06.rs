use aoc2025::day06::{part1, part2, solve, SheetError};

fn strings(lines: &[&str]) -> Vec<String> {
    lines.iter().map(|l| l.to_string()).collect()
}

fn chars(lines: &[&str]) -> Vec<Vec<char>> {
    lines.iter().map(|l| l.chars().collect()).collect()
}

#[test]
fn day06_test_part_1() {
    let input = vec![
        String::from("123 328  51 64 "),
        String::from(" 45 64  387 23 "),
        String::from("  6 98  215 314"),
        String::from("*   +   *   +  "),
    ];

    let result = solve(&input).unwrap();
    assert_eq!(result, 3263827);
}

#[test]
fn rows_of_the_example() {
    let input = strings(&[
        "123 328  51 64 ",
        " 45 64  387 23 ",
        "  6 98  215 314",
        "*   +   *   +  ",
    ]);
    // 123 * 45 * 6 + 328 + 64 + 98 + 51 * 387 * 215 + 64 + 23 + 314
    assert_eq!(part1(&input), Ok(4277556));
}

#[test]
fn columns_one_block_at_a_time() {
    // 4 + 431 + 623
    assert_eq!(part2(&chars(&["64 ", "23 ", "314", "+  "])), Ok(1058));
    // 356 * 24 * 1
    assert_eq!(part2(&chars(&["123", " 45", "  6", "*  "])), Ok(8544));
    assert_eq!(part2(&chars(&["+"])), Ok(0));
    assert_eq!(part2(&chars(&["*"])), Ok(1));
    assert_eq!(part2(&chars(&[""])), Ok(0));
    // digits before the first operator are added
    assert_eq!(part2(&chars(&["12", "  "])), Ok(3));
    // a column that reads 0 is passed over, also in a product
    assert_eq!(part2(&chars(&["203", "*  "])), Ok(6));
}

#[test]
fn rows_with_other_words() {
    assert_eq!(part1(&strings(&["1 2 3", "4 5 6", "+ * -"])), Ok(15));
    assert_eq!(part1(&strings(&["1 2 3", "", "   ", "+ +"])), Ok(3));
    assert_eq!(part1(&strings(&["+ *"])), Ok(1));
    // 1 + 2, and then 1 * 10 + 2 * 20 on top
    assert_eq!(part1(&strings(&["1 2", "+ +", "10 20", "* *"])), Ok(53));
    assert_eq!(part1(&strings(&["-1 +2", "* +"])), Ok(1));
    assert_eq!(part1(&Vec::new()), Ok(0));
}

#[test]
fn sheets_that_cannot_be_read() {
    assert_eq!(part2(&Vec::new()), Err(SheetError::Empty));
    assert_eq!(solve(&Vec::new()), Err(SheetError::Empty));
    assert_eq!(part2(&chars(&["123", "+"])), Err(SheetError::ShortRow));
    assert_eq!(part1(&strings(&["1 2", "3", "+ +"])), Err(SheetError::ShortRow));
    assert_eq!(part1(&strings(&["1", "+ x"])), Err(SheetError::ShortRow));
}

#[test]
fn numbers_that_do_not_fit() {
    let big = "9223372036854775807";
    assert_eq!(part1(&strings(&[big, "1", "+"])), Err(SheetError::Overflow));
    assert_eq!(part1(&strings(&[big, "2", "*"])), Err(SheetError::Overflow));
    assert_eq!(part1(&strings(&[big, "1", "*"])), Ok(i64::MAX));
    assert_eq!(part1(&strings(&[big, "+", "1", "+"])), Err(SheetError::Overflow));
    let tall: Vec<String> = (0..20).map(|_| "9".to_string()).chain(["+".to_string()]).collect();
    assert_eq!(solve(&tall), Err(SheetError::Overflow));
    let tall: Vec<String> = (0..18).map(|_| "9".to_string()).chain(["+".to_string()]).collect();
    assert_eq!(solve(&tall), Ok(999_999_999_999_999_999));
}

use aoc2025::day07::{
    check_rows, check_spaced, count_all_timelines, count_splits, count_timelines, solve,
    ManifoldError, SourceCount,
};

fn lines_of(text: &str) -> Vec<String> {
    text.lines()
        .map(|line| line.trim().to_string())
        .filter(|line| !line.is_empty())
        .collect()
}

fn chars(lines: &[&str]) -> Vec<Vec<char>> {
    lines.iter().map(|l| l.chars().collect()).collect()
}

const EXAMPLE: &str = "
        .......S.......
        ...............
        .......^.......
        ...............
        ......^.^......
        ...............
        .....^.^.^.....
        ...............
        ....^.^...^....
        ...............
        ...^.^...^.^...
        ...............
        ..^...^.....^..
        ...............
        .^.^.^.^.^...^.
        ...............";

#[test]
fn day07_test_part_1() {
    let input: Vec<String> = lines_of(EXAMPLE);

    let result = solve(&input).unwrap();
    assert_eq!(result, 21);
}

#[test]
fn timelines_of_the_example() {
    let matrix: Vec<Vec<char>> = lines_of(EXAMPLE).iter().map(|l| l.chars().collect()).collect();
    assert_eq!(count_timelines(&matrix, 0, 7), Some(40));
    assert_eq!(
        count_all_timelines(&matrix),
        Ok(vec![SourceCount { row: 0, col: 7, timelines: 40 }])
    );
}

#[test]
fn small_manifolds() {
    assert_eq!(count_splits(&chars(&["..S..", ".....", "..^..", "....."])), Ok(1));
    assert_eq!(count_splits(&chars(&["..S..", ".....", ".....", "....."])), Ok(0));
    assert_eq!(count_splits(&chars(&[".....", "..^..", "....."])), Ok(0));
    // the two beams from the first splitter meet one splitter each
    assert_eq!(count_splits(&chars(&["..S..", "..^..", ".^.^.", "....."])), Ok(3));
    // both beams fall on the same splitter further down
    assert_eq!(count_splits(&chars(&["...S...", "...^...", "..^.^..", "...^..."])), Ok(4));
    assert_eq!(count_timelines(&chars(&["...S...", "...^...", "..^.^..", "...^..."]), 0, 3), Some(6));
    assert_eq!(count_timelines(&chars(&["..S..", ".....", "....."]), 0, 2), Some(1));
}

#[test]
fn a_splitter_in_the_second_column_sends_no_beam_left() {
    // the beam from the splitter goes on to the right only, and so misses the splitter
    // below the first column's neighbour
    assert_eq!(count_splits(&chars(&[".S.", ".^.", "..^"])), Ok(2));
    assert_eq!(count_splits(&chars(&[".S..", ".^..", "...."])), Ok(1));
    // a particle still goes either way
    assert_eq!(count_timelines(&chars(&[".S..", ".^..", "...."]), 0, 1), Some(2));
    // at the right edge both the beam and the particle go left only
    assert_eq!(count_splits(&chars(&["...S", "...^", "..^."])), Ok(2));
    assert_eq!(count_timelines(&chars(&["...S", "...^", "...."]), 0, 3), Some(1));
}

#[test]
fn several_sources() {
    let m = chars(&["..S...S..", "..^...^..", ".........", "...^.^..."]);
    assert_eq!(count_splits(&m), Ok(4));
    assert_eq!(
        count_all_timelines(&m),
        Ok(vec![
            SourceCount { row: 0, col: 2, timelines: 3 },
            SourceCount { row: 0, col: 6, timelines: 3 },
        ])
    );
    assert_eq!(count_all_timelines(&chars(&["....", "...."])), Ok(Vec::new()));
}

#[test]
fn manifolds_that_cannot_be_counted() {
    assert_eq!(solve(&Vec::new()), Err(ManifoldError::Empty));
    assert_eq!(count_splits(&chars(&["..S..", "..^"])), Err(ManifoldError::ShortRow));
    assert_eq!(count_splits(&chars(&["..S..", ".^^.."])), Err(ManifoldError::CrowdedSplitters));
    assert_eq!(count_splits(&chars(&["..S..", "^...."])), Err(ManifoldError::CrowdedSplitters));
    assert_eq!(count_all_timelines(&chars(&["S", "^"])), Err(ManifoldError::CrowdedSplitters));
    assert!(check_rows(&chars(&["..", "..."])));
    assert!(!check_rows(&chars(&["...", ".."])));
    assert!(check_spaced(&chars(&[".^.^.", "..^.^"])));
    assert!(!check_spaced(&chars(&[".^.^^"])));
}

#[test]
fn more_timelines_than_an_i64_counts() {
    // 70 rows of splitters under one another double the count seventy times over
    let width = 150;
    let mut rows: Vec<Vec<char>> = Vec::new();
    let mut first = vec!['.'; width];
    first[75] = 'S';
    rows.push(first);
    for depth in 0..70 {
        let mut row = vec!['.'; width];
        let mut col = 75 - depth;
        while col <= 75 + depth {
            row[col] = '^';
            col += 2;
        }
        rows.push(row);
    }
    assert_eq!(count_timelines(&rows, 0, 75), None);
    assert_eq!(count_all_timelines(&rows), Err(ManifoldError::Overflow));
    rows.truncate(63);
    assert_eq!(count_timelines(&rows, 0, 75), Some(1 << 62));
}

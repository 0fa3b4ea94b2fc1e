use aoc2025::day05::{
    count_fresh_ids, interval_key, is_in_intervals, merge_all, merge_intervals, read_database,
    read_entry, solve, sum_lengths, DbError, Entry,
};

fn strings(lines: &[&str]) -> Vec<String> {
    lines.iter().map(|l| l.to_string()).collect()
}

#[test]
fn day05_test_part_1_case_1() {
    // 3-5
    // 10-14
    // 16-20
    // 12-18
    let input = vec![
        String::from("3-5"),
        String::from("10-14"),
        String::from("16-20"),
        String::from("12-18"),
        String::from("1"),
        String::from("5"),
        String::from("8"),
        String::from("11"),
        String::from("17"),
        String::from("32"),
    ];

    let result = solve(&input).unwrap();
    assert_eq!(result, 3);
}

#[test]
fn ids_are_looked_up_in_the_ranges_before_them() {
    assert_eq!(solve(&strings(&["5", "3-5", "5"])), Ok(1));
    assert_eq!(solve(&strings(&["3-5", "", "4", "6"])), Ok(1));
    assert_eq!(solve(&Vec::new()), Ok(0));
    let (ranges, fresh) = read_database(&strings(&["3-5", "4", "10-14", "12", "1"])).unwrap();
    assert_eq!(ranges, vec![(3, 5), (10, 14)]);
    assert_eq!(fresh, 2);
}

#[test]
fn lines_are_ranges_ids_or_blank() {
    assert_eq!(read_entry("3-5"), Ok(Entry::Range(3, 5)));
    assert_eq!(read_entry("+3--5"), Ok(Entry::Range(3, -5)));
    assert_eq!(read_entry("17"), Ok(Entry::Id(17)));
    assert_eq!(read_entry("+17"), Ok(Entry::Id(17)));
    assert_eq!(read_entry(""), Ok(Entry::Blank));
    assert_eq!(read_entry("-3-5"), Err(DbError::BadRange));
    assert_eq!(read_entry("3-"), Err(DbError::BadRange));
    assert_eq!(read_entry("3 - 5"), Err(DbError::BadRange));
    assert_eq!(read_entry("-"), Err(DbError::BadRange));
    assert_eq!(read_entry("3-5-7"), Err(DbError::BadRange));
    assert_eq!(read_entry("abc"), Err(DbError::BadId));
    assert_eq!(read_entry(" 7"), Err(DbError::BadId));
    assert_eq!(read_entry("9223372036854775808"), Err(DbError::BadId));
    assert_eq!(solve(&strings(&["3-5", "x", "1-"])), Err(DbError::BadId));
}

#[test]
fn membership_includes_both_ends() {
    let ranges = vec![(3, 5), (10, 14)];
    assert!(is_in_intervals(3, &ranges));
    assert!(is_in_intervals(5, &ranges));
    assert!(is_in_intervals(12, &ranges));
    assert!(!is_in_intervals(2, &ranges));
    assert!(!is_in_intervals(6, &ranges));
    assert!(!is_in_intervals(15, &ranges));
    assert!(!is_in_intervals(4, &Vec::new()));
    assert!(!is_in_intervals(4, &vec![(5, 3)]));
}

#[test]
fn overlapping_ranges_are_joined() {
    assert_eq!(
        merge_intervals(&vec![(3, 5), (10, 14), (12, 18), (16, 20)]),
        vec![(3, 5), (10, 20)]
    );
    assert_eq!(merge_intervals(&vec![(1, 10), (2, 3), (10, 12)]), vec![(1, 12)]);
    assert_eq!(merge_intervals(&vec![(1, 2), (3, 4)]), vec![(1, 2), (3, 4)]);
    assert_eq!(merge_intervals(&vec![(7, 7)]), vec![(7, 7)]);
    assert_eq!(merge_intervals(&Vec::new()), Vec::new());
}

#[test]
fn lengths_count_both_ends() {
    assert_eq!(sum_lengths(&vec![(3, 5), (10, 20)]), Some(14));
    assert_eq!(sum_lengths(&vec![(7, 7)]), Some(1));
    assert_eq!(sum_lengths(&Vec::new()), Some(0));
    assert_eq!(sum_lengths(&vec![(i64::MIN, i64::MAX)]), None);
    assert_eq!(sum_lengths(&vec![(0, i64::MAX)]), None);
    assert_eq!(sum_lengths(&vec![(1, i64::MAX)]), Some(i64::MAX));
    assert_eq!(sum_lengths(&vec![(1, i64::MAX), (0, 0)]), None);
}

#[test]
fn fresh_ids_of_unordered_ranges() {
    assert_eq!(count_fresh_ids(vec![(3, 5), (10, 14), (16, 20), (12, 18)]), Some(14));
    assert_eq!(count_fresh_ids(vec![(16, 20), (12, 18), (10, 14), (3, 5)]), Some(14));
    assert_eq!(count_fresh_ids(vec![(5, 9), (1, 6)]), Some(9));
    assert_eq!(count_fresh_ids(Vec::new()), Some(0));
}

#[test]
fn ranges_are_ordered_by_start_and_then_by_end() {
    assert_eq!(
        merge_all(vec![(16, 20), (12, 18), (10, 14), (3, 5)]),
        vec![(3, 5), (10, 20)]
    );
    // in the given order the same ranges would not merge
    assert_eq!(
        merge_intervals(&vec![(16, 20), (12, 18), (10, 14), (3, 5)]),
        vec![(16, 20)]
    );
    assert_eq!(merge_all(vec![(5, 9), (5, 6), (1, 1)]), vec![(1, 1), (5, 9)]);
    assert_eq!(interval_key(&(3, 5)), (3, 5));
    assert!(interval_key(&(3, 5)) < interval_key(&(3, 6)));
    assert!(interval_key(&(3, 9)) < interval_key(&(4, 0)));
}

use aoc2025::day02::{
    add_range, all_chunks_equal, is_invalid, is_really_invalid, solve02, sum_invalid_ids,
    to_decimal, RangeError,
};

const EXAMPLE: &str = "11-22,95-115,998-1012,1188511880-1188511890,222220-222224,1698522-1698528,446443-446449,38593856-38593862,565653-565659,824824821-824824827,2121212118-2121212124";

#[test]
fn a_block_twice() {
    assert!(is_invalid(b"11"));
    assert!(is_invalid(b"6464"));
    assert!(is_invalid(b"123123"));
    assert!(is_invalid(b""));
    assert!(!is_invalid(b"1"));
    assert!(!is_invalid(b"101"));
    assert!(!is_invalid(b"111"));
    assert!(!is_invalid(b"1231"));
    assert!(!is_invalid(b"1212121"));
}

#[test]
fn a_block_repeated() {
    assert!(is_really_invalid(b"11"));
    assert!(is_really_invalid(b"111"));
    assert!(is_really_invalid(b"123123123"));
    assert!(is_really_invalid(b"1212121212"));
    assert!(is_really_invalid(b"824824824"));
    assert!(!is_really_invalid(b""));
    assert!(!is_really_invalid(b"7"));
    assert!(!is_really_invalid(b"12"));
    assert!(!is_really_invalid(b"1231231"));
    assert!(!is_really_invalid(b"121213"));
}

#[test]
fn copies_of_a_prefix() {
    assert!(all_chunks_equal(b"123123", 3));
    assert!(!all_chunks_equal(b"123123", 2));
    assert!(all_chunks_equal(b"123123", 6));
    assert!(!all_chunks_equal(b"123123", 4));
    assert!(!all_chunks_equal(b"12312", 3));
    assert!(all_chunks_equal(b"", 3));
    assert!(all_chunks_equal(b"7777", 1));
}

#[test]
fn numbers_in_base_ten() {
    assert_eq!(to_decimal(0), b"0".to_vec());
    assert_eq!(to_decimal(7), b"7".to_vec());
    assert_eq!(to_decimal(10), b"10".to_vec());
    assert_eq!(to_decimal(1188511885), b"1188511885".to_vec());
    assert_eq!(to_decimal(-45), b"-45".to_vec());
    assert_eq!(to_decimal(i64::MAX), b"9223372036854775807".to_vec());
    assert_eq!(to_decimal(i64::MIN), b"-9223372036854775808".to_vec());
    for n in [1i64, 9, 99, 100, 101, 65536, -1, -1000] {
        assert_eq!(to_decimal(n), n.to_string().into_bytes());
    }
}

#[test]
fn sums_of_the_example() {
    let lines = vec![EXAMPLE.to_string()];
    assert_eq!(sum_invalid_ids(&lines), Ok((1227775554, 4174379265)));
    assert_eq!(solve02(&lines), Ok(4174379265));
}

#[test]
fn sums_over_single_ranges() {
    assert_eq!(add_range((0, 0), 11, 22), Some((33, 33)));
    assert_eq!(add_range((0, 0), 95, 115), Some((99, 210)));
    assert_eq!(add_range((5, 7), 998, 1012), Some((1015, 2016)));
    assert_eq!(add_range((5, 7), 12, 11), Some((5, 7)));
    assert_eq!(add_range((0, 0), 1698522, 1698528), Some((0, 0)));
    assert_eq!(add_range((0, 0), -11, -11), Some((0, 0)));
    assert_eq!(solve02(&Vec::new()), Ok(0));
    assert_eq!(solve02(&vec!["11-22".to_string(), "95-115,7-7".to_string()]), Ok(243));
}

#[test]
fn sums_that_do_not_fit() {
    assert_eq!(add_range((i64::MAX, 0), 11, 11), None);
    assert_eq!(add_range((0, i64::MAX - 10), 11, 11), None);
    assert_eq!(add_range((0, i64::MAX - 11), 11, 11), Some((11, i64::MAX)));
    assert_eq!(add_range((i64::MAX - 11, i64::MAX), 12, 12), Some((i64::MAX - 11, i64::MAX)));
    let lines = vec!["5555555555555555555-5555555555555555555,5555555555555555555-5555555555555555555".to_string()];
    assert_eq!(solve02(&lines), Err(RangeError::Overflow));
}

#[test]
fn ranges_that_cannot_be_read() {
    let one = |s: &str| solve02(&vec![s.to_string()]);
    assert_eq!(one(""), Err(RangeError::BadRange));
    assert_eq!(one("11"), Err(RangeError::BadRange));
    assert_eq!(one("11-22,"), Err(RangeError::BadRange));
    assert_eq!(one("11-22,,33-44"), Err(RangeError::BadRange));
    assert_eq!(one("-11-22"), Err(RangeError::BadNumber));
    assert_eq!(one("11-"), Err(RangeError::BadNumber));
    assert_eq!(one("a-22"), Err(RangeError::BadNumber));
    assert_eq!(one("11-2 2"), Err(RangeError::BadNumber));
    assert_eq!(one("11 - 22"), Err(RangeError::BadNumber));
    assert_eq!(one("11-9223372036854775808"), Err(RangeError::BadNumber));
    assert_eq!(one("11--22"), Ok(0));
    assert_eq!(one("+11-+22"), Ok(33));
}

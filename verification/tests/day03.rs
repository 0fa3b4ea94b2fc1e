use aoc2025::day03::{check_bank, part_1, part_2, solve03, BankError};

#[test]
fn day03_test_part_1_case_1() {
    // Given the input "987654321111111", the largest two-digit number is 98
    let input = b"987654321111111"; // byte literal for the input string
    let result = part_1(input);
    assert_eq!(result, 98); // The expected result is 98
}

#[test]
fn test_part_1_case_2() {
    let input = b"811111111111119"; // byte literal for the input string
    let result = part_1(input);
    assert_eq!(result, 89);
}

#[test]
fn test_part_1_case_3() {
    let input = b"234234234234278"; // byte literal for the input string
    let result = part_1(input);
    assert_eq!(result, 78);
}

#[test]
fn test_part_1_case_4() {
    let input = b"818181911112111"; // byte literal for the input string
    let result = part_1(input);
    assert_eq!(result, 92);
}

#[test]
fn test_part2_case_1() {
    let input = vec![String::from("987654321111111")];
    let result = solve03(&input).unwrap();
    assert_eq!(result, 987654321111);
}

#[test]
fn test_part2_case_2() {
    let input = vec![String::from("811111111111119")];
    let result = solve03(&input).unwrap();
    assert_eq!(result, 811111111119);
}

#[test]
fn test_part2_case_3() {
    let input = vec![String::from("234234234234278")];
    let result = solve03(&input).unwrap();
    assert_eq!(result, 434234234278);
}

#[test]
fn twelve_of_fifteen_with_late_peak() {
    assert_eq!(part_2(b"818181911112111"), 888911112111);
    assert_eq!(part_2(b"123456789012"), 123456789012);
    assert_eq!(part_2(b"000000000000"), 0);
    assert_eq!(part_2(b"0000000000001"), 1);
}

#[test]
fn short_banks_have_no_pair() {
    assert_eq!(part_1(b""), 0);
    assert_eq!(part_1(b"7"), 0);
    assert_eq!(part_1(b"00"), 0);
    assert_eq!(part_1(b"07"), 7);
    assert_eq!(part_1(b"70"), 70);
}

#[test]
fn banks_add_up() {
    let input = vec![
        String::from("987654321111111"),
        String::from("811111111111119"),
        String::from("234234234234278"),
        String::from("818181911112111"),
    ];
    assert_eq!(solve03(&input), Ok(3121910778619));
    assert_eq!(solve03(&Vec::new()), Ok(0));
}

#[test]
fn banks_that_cannot_be_read() {
    assert_eq!(solve03(&vec![String::from("12345678901")]), Err(BankError::TooShort));
    assert_eq!(solve03(&vec![String::from("1234 5678901234")]), Err(BankError::BadByte));
    assert_eq!(
        solve03(&vec![String::from("987654321111111"), String::from("")]),
        Err(BankError::TooShort)
    );
    assert!(check_bank(b"0123456789:;"));
    assert!(!check_bank(b"0123/"));
}

#[test]
fn total_beyond_i64_is_an_overflow() {
    // bytes far above '9' count as large digits: twelve of them write 23 * (10^12 - 1)
    let big = String::from_utf8(vec![0x7f; 12]).unwrap();
    assert_eq!(part_2(big.as_bytes()), 79 * 111_111_111_111);
    let lines: Vec<String> = (0..1_100_000).map(|_| big.clone()).collect();
    assert_eq!(solve03(&lines), Err(BankError::Overflow));
}

use aoc2025::day01::{count_crossings, read_turn, solve01, DialError};

fn strings(lines: &[&str]) -> Vec<String> {
    lines.iter().map(|l| l.to_string()).collect()
}

#[test]
fn multiples_of_a_hundred_strictly_between() {
    assert_eq!(count_crossings(0, 100), 0);
    assert_eq!(count_crossings(0, 101), 1);
    assert_eq!(count_crossings(-1, 101), 2);
    assert_eq!(count_crossings(101, -1), 2);
    assert_eq!(count_crossings(50, -68), 1);
    assert_eq!(count_crossings(82, -30), 1);
    assert_eq!(count_crossings(5, 6), 0);
    assert_eq!(count_crossings(7, 7), 0);
    assert_eq!(count_crossings(-250, 250), 5);
    assert_eq!(count_crossings(99, 201), 2);
    assert_eq!(count_crossings(100, 200), 0);
}

#[test]
fn crossings_at_the_ends_of_the_range() {
    assert_eq!(count_crossings(i32::MAX, i32::MIN), 42949673);
    assert_eq!(count_crossings(i32::MIN, i32::MAX), 42949673);
    assert_eq!(count_crossings(0, i32::MAX), 21474836);
}

#[test]
fn turns_of_the_dial() {
    let lines = strings(&["L68", "L30", "R48", "L5", "R60", "L55", "L1", "L99", "R14", "L82"]);
    // three stops at 0, and five crossings counted
    assert_eq!(solve01(&lines), Ok(8));
    assert_eq!(solve01(&strings(&["R1000"])), Ok(9));
    assert_eq!(solve01(&strings(&["L50"])), Ok(2));
    assert_eq!(solve01(&strings(&["R50", "L100", "R250"])), Ok(4));
    assert_eq!(solve01(&Vec::new()), Ok(0));
    assert_eq!(solve01(&strings(&["  R50  "])), Ok(1));
}

#[test]
fn turns_are_read() {
    assert_eq!(read_turn("L68"), Ok(-68));
    assert_eq!(read_turn("R48"), Ok(48));
    assert_eq!(read_turn(" R48 "), Ok(48));
    assert_eq!(read_turn("R+7"), Ok(7));
    assert_eq!(read_turn("L-7"), Ok(7));
    assert_eq!(read_turn("R2147483647"), Ok(2147483647));
    assert_eq!(read_turn("L-2147483648"), Ok(2147483648));
    assert_eq!(read_turn("R-2147483648"), Ok(-2147483648));
}

#[test]
fn bad_lines_are_told_apart() {
    assert_eq!(read_turn("R2147483648"), Err(DialError::BadNumber));
    assert_eq!(read_turn("R"), Err(DialError::BadNumber));
    assert_eq!(read_turn("L 5"), Err(DialError::BadNumber));
    assert_eq!(read_turn("Lx"), Err(DialError::BadNumber));
    assert_eq!(read_turn("X5"), Err(DialError::BadInstruction));
    assert_eq!(read_turn("55"), Err(DialError::BadInstruction));
    assert_eq!(read_turn("l5"), Err(DialError::BadInstruction));
    assert_eq!(read_turn(""), Err(DialError::BadInstruction));
    assert_eq!(read_turn("   "), Err(DialError::BadInstruction));
    // the number is looked at before the letter
    assert_eq!(read_turn("Xx"), Err(DialError::BadNumber));
    assert_eq!(solve01(&strings(&["R5", "U7", "Lx"])), Err(DialError::BadInstruction));
    assert_eq!(solve01(&strings(&["R5", "Lx", "U7"])), Err(DialError::BadNumber));
}

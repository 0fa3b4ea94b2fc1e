use aoc2025::text::{
    chars_of, copy_range, is_space_char, read_i32, read_i64, read_within, split_at_char,
    split_first, split_words, string_of, trimmed,
};

fn chars(s: &str) -> Vec<char> {
    s.chars().collect()
}

fn text(v: &Vec<char>) -> String {
    v.iter().collect()
}

const SAMPLES: [&str; 24] = [
    "",
    " ",
    "a",
    " a ",
    "\t\n a b \r\n",
    "\u{a0}x\u{3000}",
    "\u{2003}\u{2003}",
    "a,b",
    ",",
    ",,",
    "a,,b,",
    "1-2",
    "--",
    "12",
    "-12",
    "+12",
    "+-12",
    "12 ",
    "١٢",
    "0012",
    "-0",
    "9223372036854775807",
    "-9223372036854775808",
    "9223372036854775808",
];

#[test]
fn white_space_is_that_of_the_standard_library() {
    for code in 0..=0x10ffffu32 {
        if let Some(c) = char::from_u32(code) {
            assert_eq!(is_space_char(c), c.is_whitespace(), "U+{:04X}", code);
        }
    }
}

#[test]
fn characters_of_a_string_and_back() {
    for s in SAMPLES {
        assert_eq!(chars_of(s), chars(s));
        assert_eq!(string_of(&chars(s)), s);
    }
    assert_eq!(copy_range(&chars("hello"), 1, 3), chars("el"));
    assert_eq!(copy_range(&chars("hello"), 2, 2), chars(""));
    assert_eq!(copy_range(&chars("hello"), 0, 5), chars("hello"));
}

#[test]
fn trimming_is_that_of_the_standard_library() {
    for s in SAMPLES {
        assert_eq!(text(&trimmed(&chars(s))), s.trim());
    }
}

#[test]
fn splitting_is_that_of_the_standard_library() {
    for s in SAMPLES {
        for sep in [',', '-', ' '] {
            let pieces: Vec<String> = split_at_char(&chars(s), sep).iter().map(text).collect();
            let expected: Vec<String> = s.split(sep).map(String::from).collect();
            assert_eq!(pieces, expected, "{:?} at {:?}", s, sep);
            let once = split_first(&chars(s), sep).map(|(a, b)| (text(&a), text(&b)));
            let expected = s.split_once(sep).map(|(a, b)| (a.to_string(), b.to_string()));
            assert_eq!(once, expected, "{:?} at {:?}", s, sep);
        }
    }
}

#[test]
fn words_are_those_of_the_standard_library() {
    for s in SAMPLES {
        let words: Vec<String> = split_words(&chars(s), false).iter().map(text).collect();
        let expected: Vec<String> = s.split_whitespace().map(String::from).collect();
        assert_eq!(words, expected, "{:?}", s);
        let words: Vec<String> = split_words(&chars(s), true).iter().map(text).collect();
        let expected: Vec<String> = s.split_ascii_whitespace().map(String::from).collect();
        assert_eq!(words, expected, "{:?}", s);
    }
    let s = "a\u{b}b\u{c}c\u{1c}d\u{85}e";
    let words: Vec<String> = split_words(&chars(s), true).iter().map(text).collect();
    assert_eq!(words, s.split_ascii_whitespace().map(String::from).collect::<Vec<String>>());
    let words: Vec<String> = split_words(&chars(s), false).iter().map(text).collect();
    assert_eq!(words, s.split_whitespace().map(String::from).collect::<Vec<String>>());
}

#[test]
fn numbers_are_read_as_the_standard_library_reads_them() {
    let more = [
        "2147483647",
        "2147483648",
        "-2147483648",
        "-2147483649",
        "+",
        "-",
        "1_000",
        "1e3",
        "0x10",
        "99999999999999999999999999999999999999999999",
        "-99999999999999999999999999999999999999999999",
        "000000000000000000000000000000000000000000001",
        "7a",
        "a7",
    ];
    for s in SAMPLES.iter().chain(more.iter()) {
        assert_eq!(read_i64(&chars(s)), s.parse::<i64>().ok(), "{:?}", s);
        assert_eq!(read_i32(&chars(s)), s.parse::<i32>().ok(), "{:?}", s);
    }
}

#[test]
fn numbers_within_a_limit() {
    assert_eq!(read_within(&chars("127"), 128), Some(127));
    assert_eq!(read_within(&chars("128"), 128), None);
    assert_eq!(read_within(&chars("-128"), 128), Some(-128));
    assert_eq!(read_within(&chars("-129"), 128), None);
    assert_eq!(read_within(&chars("0"), 1), Some(0));
    assert_eq!(read_within(&chars("-1"), 1), Some(-1));
    assert_eq!(read_within(&chars("1"), 1), None);
    assert_eq!(
        read_within(&chars("18446744073709551615"), 0x1_0000_0000_0000_0000),
        Some(18446744073709551615)
    );
    assert_eq!(read_within(&chars("18446744073709551616"), 0x1_0000_0000_0000_0000), None);
    assert_eq!(
        read_within(&chars("-18446744073709551616"), 0x1_0000_0000_0000_0000),
        Some(-18446744073709551616)
    );
}

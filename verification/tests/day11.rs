use aoc2025::day11::{
    bfs, dfs, dfs_part2, parse, part1, read_wiring, solve, FlagCache, PathError,
};

fn lines_of(text: &str) -> Vec<String> {
    text.lines()
        .map(|line| line.trim().to_string())
        .filter(|line| !line.is_empty())
        .collect()
}

#[test]
fn day11_test_part_1() {
    let input_str = "
            aaa: you hhh
            you: bbb ccc
            bbb: ddd eee
            ccc: ddd eee fff
            ddd: ggg
            eee: out
            fff: out
            ggg: out
            hhh: ccc fff iii
            iii: out";
    let input: Vec<String> = lines_of(input_str);

    let result = part1(&input).unwrap();
    assert_eq!(result, 5);
}

#[test]
fn test_part_2() {
    let input_str = "
            svr: aaa bbb
            aaa: fft
            fft: ccc
            bbb: tty
            tty: ccc
            ccc: ddd eee
            ddd: hub
            hub: fff
            eee: dac
            dac: fff
            fff: ggg hhh
            ggg: out
            hhh: out";
    let input: Vec<String> = lines_of(input_str);

    let result = solve(&input).unwrap();
    assert_eq!(result, 2);
}

#[test]
fn lines_of_the_wiring() {
    let (source, dests) = parse("aaa: you hhh").unwrap();
    assert_eq!(source, "aaa");
    assert_eq!(dests, vec!["you".to_string(), "hhh".to_string()]);
    let (source, dests) = parse("x:").unwrap();
    assert_eq!((source.as_str(), dests.len()), ("x", 0));
    let (source, dests) = parse(" a b :  c\td  :e ").unwrap();
    assert_eq!(source, " a b ");
    assert_eq!(dests, vec!["c".to_string(), "d".to_string(), ":e".to_string()]);
    // only the white space of ASCII parts the names
    let (_, dests) = parse("a: b\u{2003}c d").unwrap();
    assert_eq!(dests, vec!["b\u{2003}c".to_string(), "d".to_string()]);
    assert!(parse("no colon here").is_none());
    assert!(parse("").is_none());
    assert!(read_wiring(&lines_of("a: b\nb out")).is_none());
    assert_eq!(solve(&lines_of("svr: out\nbad")), Err(PathError::BadLine));
}

#[test]
fn a_later_line_replaces_an_earlier_one() {
    let graph = read_wiring(&lines_of("you: a b\na: out\nb: out\nyou: a")).unwrap();
    let mut cache = FlagCache::new();
    assert_eq!(dfs(&"you".to_string(), &graph, &mut cache), Ok(1));
}

#[test]
fn counts_from_other_devices() {
    let graph = read_wiring(&lines_of(
        "you: bbb ccc\nbbb: ddd eee\nccc: ddd eee fff\nddd: ggg\neee: out\nfff: out\nggg: out",
    ))
    .unwrap();
    let mut cache = FlagCache::new();
    assert_eq!(dfs(&"ccc".to_string(), &graph, &mut cache), Ok(3));
    assert_eq!(dfs(&"bbb".to_string(), &graph, &mut cache), Ok(2));
    assert_eq!(dfs(&"you".to_string(), &graph, &mut cache), Ok(5));
    assert_eq!(dfs(&"out".to_string(), &graph, &mut cache), Ok(1));
    assert_eq!(cache.get("ccc", true, true), Some(3));
    assert_eq!(cache.get("ccc", false, false), None);
    assert_eq!(dfs(&"nowhere".to_string(), &graph, &mut cache), Err(PathError::UnknownDevice));
}

#[test]
fn paths_that_pass_both_devices() {
    let graph = read_wiring(&lines_of(
        "svr: dac fft x\ndac: fft out\nfft: dac out\nx: out",
    ));
    // dac and fft lead to one another: the wiring runs in a circle
    let graph = graph.unwrap();
    let mut cache = FlagCache::new();
    assert_eq!(dfs_part2("svr", false, false, &graph, &mut cache), Err(PathError::TooDeep));

    let graph = read_wiring(&lines_of("svr: dac x\ndac: fft out\nfft: out y\nx: fft")).unwrap();
    let mut cache = FlagCache::new();
    assert_eq!(dfs_part2("svr", false, false, &graph, &mut cache), Ok(1));
    let mut cache = FlagCache::new();
    assert_eq!(dfs_part2("svr", true, false, &graph, &mut cache), Ok(2));
    let mut cache = FlagCache::new();
    assert_eq!(dfs_part2("svr", true, true, &graph, &mut cache), Ok(3));
    let mut cache = FlagCache::new();
    assert_eq!(dfs_part2("out", false, false, &graph, &mut cache), Ok(0));
    let mut cache = FlagCache::new();
    assert_eq!(dfs_part2("out", true, true, &graph, &mut cache), Ok(1));
    // a device without a line is a dead end, and is noted as one
    let mut cache = FlagCache::new();
    assert_eq!(dfs_part2("y", true, true, &graph, &mut cache), Ok(0));
    assert_eq!(cache.get("y", true, true), Some(0));
}

#[test]
fn wiring_that_fails() {
    assert_eq!(part1(&lines_of("you: a\na: you")), Err(PathError::TooDeep));
    assert_eq!(part1(&lines_of("you: you")), Err(PathError::TooDeep));
    assert_eq!(part1(&lines_of("you: a\nb: out")), Err(PathError::UnknownDevice));
    assert_eq!(part1(&Vec::new()), Err(PathError::UnknownDevice));
    assert_eq!(solve(&Vec::new()), Ok(0));
    assert_eq!(solve(&lines_of("svr: a\na: svr")), Err(PathError::TooDeep));
    assert_eq!(solve(&lines_of("you: out")), Ok(0));
    assert_eq!(part1(&lines_of("you: out out out")), Ok(3));
}

#[test]
fn long_chains_are_no_circle() {
    // a chain of 200 devices, each with two wires to the next
    let mut lines: Vec<String> = Vec::new();
    lines.push("you: n0 n0".to_string());
    for k in 0..200 {
        lines.push(format!("n{}: n{} n{}", k, k + 1, k + 1));
    }
    lines.push("n200: out".to_string());
    // 2^201 paths
    assert_eq!(part1(&lines), Err(PathError::Overflow));
    lines.truncate(61);
    lines.push("n60: out".to_string());
    assert_eq!(part1(&lines), Ok(1 << 61));
    lines.pop();
    lines.push("n60: out out out out".to_string());
    assert_eq!(part1(&lines), Err(PathError::Overflow));
}

#[test]
fn level_by_level_gives_the_same_count() {
    let graph = read_wiring(&lines_of(
        "aaa: you hhh\nyou: bbb ccc\nbbb: ddd eee\nccc: ddd eee fff\nddd: ggg\neee: out\nfff: out\nggg: out\nhhh: ccc fff iii\niii: out",
    ))
    .unwrap();
    assert_eq!(bfs(&graph), Ok(5));
    let mut cache = FlagCache::new();
    assert_eq!(dfs(&"you".to_string(), &graph, &mut cache), bfs(&graph));
    let graph = read_wiring(&lines_of("you: out out a\na: out")).unwrap();
    assert_eq!(bfs(&graph), Ok(3));
    let graph = read_wiring(&lines_of("you: a\na: you")).unwrap();
    assert_eq!(bfs(&graph), Err(PathError::TooDeep));
    let graph = read_wiring(&lines_of("you: a out")).unwrap();
    assert_eq!(bfs(&graph), Err(PathError::UnknownDevice));
    let graph = read_wiring(&Vec::new()).unwrap();
    assert_eq!(bfs(&graph), Err(PathError::UnknownDevice));
    // the longest path has as many steps as there are devices with a line
    let graph = read_wiring(&lines_of("you: a\na: b\nb: c\nc: out")).unwrap();
    assert_eq!(bfs(&graph), Ok(1));
}

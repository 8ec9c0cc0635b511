use daily_puzzles::day11::{
    count_paths, count_paths2, parse_1, parse_2, parse_text, try_count_paths, try_count_paths2,
    try_parse_1, try_parse_2, CountMap,
};

const INPUT_TEXT_1: &str = "
aaa: you hhh
you: bbb ccc
bbb: ddd eee
ccc: ddd eee fff
ddd: ggg
eee: out
fff: out
ggg: out
hhh: ccc fff iii
iii: out
";

const INPUT_TEXT_2: &str = "
svr: aaa bbb
aaa: fft
fft: ccc
bbb: tty
tty: ccc
ccc: ddd eee
ddd: hub
hub: fff
eee: dac
dac: fff
fff: ggg hhh
ggg: out
hhh: out
";

#[test]
fn test11_parse1() {
    assert_eq!(parse_1(&INPUT_TEXT_1), 5);
}

#[test]
fn test11_count2() {
    let graph = parse_text(INPUT_TEXT_1.as_bytes()).unwrap();
    assert_eq!(count_paths2(&graph, "you", "out"), 5);
}

#[test]
fn test11_parse2() {
    assert_eq!(parse_2(&INPUT_TEXT_2), 2);
}

#[test]
fn test11_both_counts_agree() {
    let graph = parse_text(INPUT_TEXT_1.as_bytes()).unwrap();
    assert_eq!(count_paths(&graph, "you", "out"), 5);
    assert_eq!(count_paths(&graph, "aaa", "out"), 10);
    assert_eq!(count_paths2(&graph, "aaa", "out"), 10);
    assert_eq!(count_paths2(&graph, "hhh", "fff"), 2);
}

#[test]
fn test11_graph_names_and_outputs() {
    let graph = parse_text(b"a: b c\nb: c\n").unwrap();
    assert_eq!(graph.names, vec![b"a".to_vec(), b"b".to_vec(), b"c".to_vec()]);
    assert_eq!(graph.outs, vec![Some(vec![1, 2]), Some(vec![2]), None]);
    assert_eq!(graph.find(b"b"), 1);
    assert_eq!(graph.find(b"z"), 3);
}

#[test]
fn test11_later_line_replaces_earlier() {
    let graph = parse_text(b"a: b\na: c c\n").unwrap();
    assert_eq!(graph.outs[0], Some(vec![2, 2]));
    assert_eq!(try_count_paths(&graph, b"a", b"c"), Some(2));
    assert_eq!(try_count_paths2(&graph, b"a", b"c"), Some(2));
    assert_eq!(try_count_paths2(&graph, b"a", b"b"), None);
}

#[test]
fn test11_line_without_colon_is_refused() {
    assert!(parse_text(b"a b c\n").is_none());
    assert!(parse_text(b"a:b\n").is_none());
    assert_eq!(try_parse_1(b"a b c\n"), None);
    assert_eq!(try_parse_2(b"a b c\n"), None);
}

#[test]
fn test11_dead_end_stops_the_first_count_only() {
    // `c` has no line of its own.
    let graph = parse_text(b"a: b c\nb: out\n").unwrap();
    assert_eq!(try_count_paths(&graph, b"a", b"out"), None);
    assert_eq!(try_count_paths2(&graph, b"a", b"out"), Some(1));
}

#[test]
fn test11_unknown_source_or_unreached_sink() {
    let graph = parse_text(b"a: b\nb: c\n").unwrap();
    assert_eq!(try_count_paths(&graph, b"zzz", b"c"), None);
    assert_eq!(try_count_paths2(&graph, b"zzz", b"c"), None);
    assert_eq!(try_count_paths2(&graph, b"b", b"a"), None);
    assert_eq!(try_count_paths2(&graph, b"a", b"zzz"), None);
}

#[test]
fn test11_loop_has_no_answer() {
    let graph = parse_text(b"a: b\nb: a out\n").unwrap();
    assert_eq!(try_count_paths(&graph, b"a", b"out"), None);
    assert_eq!(try_count_paths2(&graph, b"a", b"out"), None);
}

#[test]
fn test11_ways_end_at_the_sink() {
    // The way through `out` to `b` and back is not taken.
    let graph = parse_text(b"a: out\nout: b\nb: out\n").unwrap();
    assert_eq!(try_count_paths(&graph, b"a", b"out"), Some(1));
    assert_eq!(try_count_paths2(&graph, b"a", b"out"), Some(1));
}

#[test]
fn test11_counts_double_along_a_ladder() {
    let mut text = String::new();
    for i in 0..70 {
        text.push_str(&format!("n{}: n{} n{}\n", i, i + 1, i + 1));
    }
    let graph = parse_text(text.as_bytes()).unwrap();
    assert_eq!(try_count_paths2(&graph, b"n0", b"n10"), Some(1024));
    assert_eq!(try_count_paths2(&graph, b"n0", b"n62"), Some(1i64 << 62));
    assert_eq!(try_count_paths2(&graph, b"n0", b"n63"), None);
}

#[test]
fn test11_product_of_three_counts() {
    let text = "svr: fft fft\nfft: dac dac dac\ndac: out x\nx: out\n";
    assert_eq!(try_parse_2(text.as_bytes()), Some(12));
    assert_eq!(try_parse_2(b"svr: fft\nfft: out\n"), None);
}

#[test]
fn test11_count_map_adds_up() {
    let mut counts = CountMap::new();
    assert!(counts.h.is_empty());
    counts.inc(3, 5);
    counts.inc(3, 7);
    counts.inc(4, 1);
    assert_eq!(counts.h.get(&3), Some(&12));
    assert_eq!(counts.h.get(&4), Some(&1));
    assert!(counts.fits(3, i64::MAX - 12));
    assert!(!counts.fits(3, i64::MAX - 11));
    assert!(counts.fits(9, i64::MAX));
}

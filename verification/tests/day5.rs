use daily_puzzles::day5::{
    cmp_edge, is_fresh, parse_1, parse_2, parse_text, sort, try_parse_1, try_parse_2, Edge,
};
use std::cmp::Ordering;

const INPUT_TEXT_1: &str = "
3-5
10-14
16-20
12-18

1
5
8
11
17
32
";

#[test]
fn test5_parse1() {
    assert_eq!(parse_1(&INPUT_TEXT_1), 3);
}

#[test]
fn test5_parse2() {
    assert_eq!(parse_2(&INPUT_TEXT_1), 14);
}

fn edge(pos: usize, up: bool) -> Edge {
    Edge { pos, up, count: 0 }
}

fn shown(edges: &[Edge]) -> Vec<(usize, bool, u32)> {
    edges.iter().map(|e| (e.pos, e.up, e.count)).collect()
}

#[test]
fn ends_are_ordered_by_place_and_beginnings_first() {
    assert_eq!(cmp_edge(&edge(1, false), &edge(2, true)), Ordering::Less);
    assert_eq!(cmp_edge(&edge(3, true), &edge(2, true)), Ordering::Greater);
    assert_eq!(cmp_edge(&edge(2, true), &edge(2, false)), Ordering::Less);
    assert_eq!(cmp_edge(&edge(2, false), &edge(2, true)), Ordering::Greater);
    assert_eq!(cmp_edge(&edge(2, false), &edge(2, false)), Ordering::Equal);
    let sorted = sort(&vec![edge(5, false), edge(3, true), edge(5, true), edge(1, false)]);
    assert_eq!(
        shown(&sorted),
        vec![(1, false, 0), (3, true, 0), (5, true, 0), (5, false, 0)]
    );
}

#[test]
fn ends_are_counted_through() {
    let (intervals, items) = parse_text(INPUT_TEXT_1.as_bytes()).unwrap();
    assert_eq!(items, vec![1, 5, 8, 11, 17, 32]);
    assert_eq!(
        shown(&intervals),
        vec![
            (3, true, 1),
            (5, false, 1),
            (10, true, 1),
            (12, true, 2),
            (14, false, 2),
            (16, true, 2),
            (18, false, 2),
            (20, false, 1)
        ]
    );
    assert!(!is_fresh(&intervals, 1));
    assert!(is_fresh(&intervals, 5));
    assert!(!is_fresh(&intervals, 8));
    assert!(is_fresh(&intervals, 11));
    assert!(is_fresh(&intervals, 17));
    assert!(!is_fresh(&intervals, 32));
    assert!(is_fresh(&intervals, 3));
    assert!(is_fresh(&intervals, 20));
    assert!(is_fresh(&intervals, 15));
    assert!(!is_fresh(&intervals, 6));
}

#[test]
fn ranges_that_touch_or_overlap_are_measured_once() {
    assert_eq!(try_parse_2(b"1-3\n2-5\n"), Some(5));
    assert_eq!(try_parse_2(b"1-3\n4-5\n"), Some(5));
    assert_eq!(try_parse_2(b"7-7\n"), Some(1));
    assert_eq!(try_parse_2(b"1-10\n3-4\n20-21\n"), Some(12));
    assert_eq!(try_parse_2(b""), Some(0));
    assert_eq!(try_parse_1(b""), Some(0));
    assert_eq!(try_parse_1(b"see 2-4 here\n+3\n5\n"), Some(1));
}

#[test]
fn text_that_cannot_be_read_has_no_answer() {
    assert_eq!(try_parse_1(b"5\n"), None);
    assert_eq!(try_parse_1(b"1-3\nfive\n"), None);
    assert_eq!(try_parse_2(b"3-1\n"), None);
    assert_eq!(try_parse_2(b"1-99999999999999999999999\n"), None);
    assert!(parse_text(b"1-3\n-4\n").is_none());
}

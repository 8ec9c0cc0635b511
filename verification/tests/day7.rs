use daily_puzzles::day7::{parse_1, parse_2, try_parse_1, try_parse_2};

const INPUT_TEXT_1: &str = "
.......S.......
...............
.......^.......
...............
......^.^......
...............
.....^.^.^.....
...............
....^.^...^....
...............
...^.^...^.^...
...............
..^...^.....^..
...............
.^.^.^.^.^...^.
...............
";

#[test]
fn test7_parse1() {
    assert_eq!(parse_1(&INPUT_TEXT_1), 21);
}

#[test]
fn test7_parse2() {
    assert_eq!(parse_2(&INPUT_TEXT_1), 40);
}

#[test]
fn beam_without_splitters_goes_straight_down() {
    assert_eq!(try_parse_1(b".S.\n...\n...\n"), Some(0));
    assert_eq!(try_parse_2(b".S.\n...\n...\n"), Some(1));
    assert_eq!(try_parse_1(b"S"), Some(0));
    assert_eq!(try_parse_2(b"S"), Some(1));
}

#[test]
fn splitter_sends_the_beam_both_ways() {
    assert_eq!(try_parse_1(b".S.\n.^.\n"), Some(1));
    assert_eq!(try_parse_2(b".S.\n.^.\n"), Some(2));
    assert_eq!(try_parse_1(b".S.\n.^.\n^.^\n"), Some(3));
    assert_eq!(try_parse_2(b".S.\n.^.\n^.^\n"), Some(2));
    assert_eq!(try_parse_1(b"S\n^\n"), Some(1));
    assert_eq!(try_parse_2(b"S\n^\n"), Some(0));
    assert_eq!(try_parse_2(b"..S..\n..^..\n.^.^.\n"), Some(4));
}

#[test]
fn grid_without_start_or_with_a_short_row_has_no_answer() {
    assert_eq!(try_parse_1(b""), None);
    assert_eq!(try_parse_1(b"...\n.S.\n"), None);
    assert_eq!(try_parse_2(b".S.\n..\n"), None);
    assert_eq!(try_parse_2(b".S.\n....\n"), Some(1));
}

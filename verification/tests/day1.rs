use daily_puzzles::day1::{parse_1, parse_2, parse_text, try_parse_1, try_parse_2};

const INPUT_TEXT_1: &str = "
L68
L30
R48
L5
R60
L55
L1
L99
R14
L82
";

#[test]
fn test1_parse1() {
    assert_eq!(parse_1(&INPUT_TEXT_1), 3);
}

#[test]
fn test1_parse2() {
    assert_eq!(parse_2(&INPUT_TEXT_1), 6);
}

#[test]
fn turns_are_found_wherever_they_stand() {
    assert_eq!(parse_text(b""), vec![]);
    assert_eq!(parse_text(b"L68"), vec![(false, 68)]);
    assert_eq!(parse_text(b"xR5yLL07,R,12 L"), vec![(true, 5), (false, 7)]);
    assert_eq!(parse_text(b"R99999999999"), vec![(true, 0x8000_0000)]);
}

#[test]
fn dial_starts_at_fifty() {
    assert_eq!(try_parse_1(b""), Some(0));
    assert_eq!(try_parse_1(b"R50"), Some(1));
    assert_eq!(try_parse_1(b"L50"), Some(1));
    assert_eq!(try_parse_1(b"R49 R1 L100 R200"), Some(3));
    assert_eq!(try_parse_2(b"R50"), Some(1));
    assert_eq!(try_parse_2(b"R1000"), Some(10));
    assert_eq!(try_parse_2(b"L50 L100 R1"), Some(2));
    assert_eq!(try_parse_2(b"L51 R2"), Some(2));
}

#[test]
fn turns_too_long_for_the_dial_have_no_answer() {
    assert_eq!(try_parse_1(b"R2147483648"), None);
    assert_eq!(try_parse_1(b"R2147483647"), None);
    assert_eq!(try_parse_1(b"L2147483647"), Some(0));
    assert_eq!(try_parse_2(b"L2147483648"), None);
    assert_eq!(try_parse_2(b"R2147483647"), Some(21474836));
}

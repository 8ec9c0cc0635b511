use daily_puzzles::day2::{
    count_digits, is_inval2, parse_1, parse_2, parse_range, parse_text, sum_inval, sum_inval2,
    try_parse_1, try_parse_2, try_sum_inval, try_sum_inval2,
};

const INPUT_TEXT_1: &str = "
11-22,95-115,998-1012,1188511880-1188511890,222220-222224,1698522-1698528,446443-446449,38593856-38593862,565653-565659,824824821-824824827,2121212118-2121212124
";

#[test]
fn test_parse1() {
    assert_eq!(parse_1(&INPUT_TEXT_1), 1227775554);
}

#[test]
fn test_parse2() {
    assert_eq!(parse_2(&INPUT_TEXT_1), 4174379265);
}

#[test]
fn test_parse_text() {
    assert_eq!(
        parse_text("\n123-456,7890-1234\n".as_bytes()).unwrap(),
        [(123, 456), (7890, 1234)]
    );
}

#[test]
fn test_count_digits() {
    assert_eq!(count_digits(1), 1);
    assert_eq!(count_digits(9), 1);
    assert_eq!(count_digits(10), 2);
    assert_eq!(count_digits(100), 3);
}

#[test]
fn test_count_inval() {
    assert_eq!(sum_inval(11, 22), 11 + 22);
}

#[test]
fn test_count_inval2() {
    assert_eq!(sum_inval2(11, 22), 11 + 22);
    assert_eq!(sum_inval2(95, 115), 99 + 111);
}

#[test]
fn digits_are_counted_for_all_numbers() {
    assert_eq!(count_digits(0), 1);
    assert_eq!(count_digits(-5), 1);
    assert_eq!(count_digits(99), 2);
    assert_eq!(count_digits(i64::MAX), 19);
}

#[test]
fn range_is_found_anywhere_in_a_piece() {
    assert_eq!(parse_range(b"11-22"), Some((11, 22)));
    assert_eq!(parse_range(b"x1a23-45-6"), Some((23, 45)));
    assert_eq!(parse_range(b"12-"), None);
    assert_eq!(parse_range(b"-12"), None);
    assert_eq!(parse_range(b"1-99999999999999999999"), None);
    assert!(parse_text(b"1-2,,3-4").is_none());
    assert_eq!(parse_text(b"").unwrap(), []);
}

#[test]
fn doubled_numbers_are_summed_over_a_range() {
    assert_eq!(try_sum_inval(95, 115), Some(99));
    assert_eq!(try_sum_inval(998, 1012), Some(1010));
    assert_eq!(try_sum_inval(1188511880, 1188511890), Some(1188511885));
    assert_eq!(try_sum_inval(222220, 222224), Some(222222));
    assert_eq!(try_sum_inval(1698522, 1698528), Some(0));
    assert_eq!(try_sum_inval(10, 99), Some(11 + 22 + 33 + 44 + 55 + 66 + 77 + 88 + 99));
    assert_eq!(try_sum_inval(1000, 1300), Some(1010 + 1111 + 1212));
    assert_eq!(try_sum_inval(1, 9), Some(0));
}

#[test]
fn ranges_that_cannot_be_summed_have_no_answer() {
    assert_eq!(try_sum_inval(22, 22), None);
    assert_eq!(try_sum_inval(23, 22), None);
    assert_eq!(try_sum_inval(5, 150), None);
    assert_eq!(try_sum_inval(9, 15), None);
    assert_eq!(try_sum_inval(5, 10), None);
    assert_eq!(try_parse_1(b"9-15"), None);
    assert_eq!(try_parse_1(b"nothing"), None);
    assert_eq!(try_sum_inval2(5, i64::MAX), None);
    assert_eq!(try_sum_inval2(9223372036854775806, 9223372036854775806), Some(0));
}

#[test]
fn repeated_numbers_are_recognised() {
    assert!(is_inval2(&11));
    assert!(is_inval2(&111));
    assert!(is_inval2(&1212));
    assert!(is_inval2(&123123123));
    assert!(is_inval2(&2121212121));
    assert!(!is_inval2(&0));
    assert!(!is_inval2(&7));
    assert!(!is_inval2(&12));
    assert!(!is_inval2(&121));
    assert!(!is_inval2(&1211));
    assert!(!is_inval2(&-11));
    assert_eq!(try_sum_inval2(22, 11), Some(0));
    assert_eq!(try_sum_inval2(998, 1012), Some(999 + 1010));
    assert_eq!(try_parse_2(b"11-22\n95-115"), Some(33 + 210));
    assert_eq!(try_parse_1(b"11-22\n95-115"), Some(33 + 99));
}

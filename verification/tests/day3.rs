use daily_puzzles::day3::{
    joltage, joltage2, max_digit, parse_1, parse_2, parse_bank, parse_text, try_parse_1,
    try_parse_2,
};
use daily_puzzles::text::ten_pow;
use std::collections::HashMap;

const INPUT_TEXT_1: &str = "
987654321111111
811111111111119
234234234234278
818181911112111
";

#[test]
fn test3_parse1() {
    assert_eq!(parse_1(&INPUT_TEXT_1), 357);
}

#[test]
fn test3_parse2() {
    assert_eq!(parse_2(&INPUT_TEXT_1), 3121910778619);
}

#[test]
fn banks_are_read_digit_by_digit() {
    assert_eq!(parse_bank(b"9081"), Some(vec![9, 0, 8, 1]));
    assert_eq!(parse_bank(b"9 81"), None);
    assert_eq!(parse_bank(b"a"), Some(vec![49]));
    assert_eq!(parse_text(b"12\n\n345\n"), Some(vec![vec![1, 2], vec![3, 4, 5]]));
    assert_eq!(parse_text(b"12\n3-5\n"), None);
}

#[test]
fn two_batteries_write_the_largest_pair() {
    assert_eq!(joltage(&vec![9, 8, 7, 6, 5, 4, 3, 2, 1, 1, 1, 1, 1, 1, 1]), 98);
    assert_eq!(joltage(&vec![8, 1, 1, 1, 1, 1, 1, 1, 1, 1, 1, 1, 1, 1, 9]), 89);
    assert_eq!(joltage(&vec![2, 3, 4, 2, 3, 4, 2, 3, 4, 2, 3, 4, 2, 7, 8]), 78);
    assert_eq!(joltage(&vec![8, 1, 8, 1, 8, 1, 9, 1, 1, 1, 1, 2, 1, 1, 1]), 92);
    assert_eq!(joltage(&vec![1, 9]), 19);
    assert_eq!(joltage(&vec![9, 1]), 91);
    assert_eq!(joltage(&vec![0, 0, 0]), 0);
}

#[test]
fn twelve_batteries_write_the_largest_number() {
    let bank = vec![2, 3, 4, 2, 3, 4, 2, 3, 4, 2, 3, 4, 2, 7, 8];
    assert_eq!(joltage2(&bank, 12, &mut HashMap::new()), 434234234278);
    assert_eq!(joltage2(&bank, 1, &mut HashMap::new()), 8);
    assert_eq!(joltage2(&bank, 2, &mut HashMap::new()), 78);
    assert_eq!(joltage2(&bank, 15, &mut HashMap::new()), 234234234234278);
    assert_eq!(joltage2(&bank[..11], 12, &mut HashMap::new()), 0);
    let mut cache = HashMap::new();
    assert_eq!(joltage2(&bank, 3, &mut cache), 478);
    assert_eq!(joltage2(&bank, 3, &mut cache), 478);
    assert_eq!(joltage2(&bank[1..], 2, &mut cache), 78);
}

#[test]
fn helpers_give_powers_and_largest_digits() {
    assert_eq!(ten_pow(0), 1);
    assert_eq!(ten_pow(3), 1000);
    assert_eq!(ten_pow(15), 1_000_000_000_000_000);
    assert_eq!(max_digit(&[3, 9, 2]), 9);
    assert_eq!(max_digit(&[7]), 7);
}

#[test]
fn short_or_malformed_banks_have_no_answer() {
    assert_eq!(try_parse_1(b"5\n"), None);
    assert_eq!(try_parse_1(b"12\n3 4\n"), None);
    assert_eq!(try_parse_1(b""), Some(0));
    assert_eq!(try_parse_1(b"12\n34\n"), Some(46));
    assert_eq!(try_parse_2(b"12\n"), Some(0));
    assert_eq!(try_parse_2(b"1234567890123\n"), Some(234567890123));
    assert_eq!(try_parse_2(b"12 4\n"), None);
}

use daily_puzzles::day6::{
    fold, parse_1, parse_2, parse_text, read_column, split_words, try_parse_1, try_parse_2,
};

const INPUT_TEXT_1: &str = "
123 328  51 64 
 45 64  387 23 
  6 98  215 314
*   +   *   +  
";

#[test]
fn test6_parse1() {
    assert_eq!(parse_1(&INPUT_TEXT_1), 4277556);
}

#[test]
fn test6_parse2() {
    assert_eq!(parse_2(&INPUT_TEXT_1), 3263827);
}

#[test]
fn words_stand_between_white_space() {
    assert_eq!(split_words(b" 12  3\t+ "), vec![b"12".to_vec(), b"3".to_vec(), b"+".to_vec()]);
    assert_eq!(split_words(b"   "), Vec::<Vec<u8>>::new());
    assert_eq!(split_words(b"a"), vec![b"a".to_vec()]);
}

#[test]
fn sheet_is_read_row_by_row() {
    let (nums, ops) = parse_text(b"1 -2\n+3 4\n* +\n").unwrap();
    assert_eq!(nums, vec![vec![1, -2], vec![3, 4]]);
    assert_eq!(ops, vec![true, false]);
    assert!(parse_text(b"1 x\n").is_none());
    assert!(parse_text(b"1 2\n   \n").is_none());
    let (_, later) = parse_text(b"+ +\n* * *\n").unwrap();
    assert_eq!(later, vec![true, true, true]);
}

#[test]
fn columns_are_added_or_multiplied() {
    assert_eq!(try_parse_1(b"2 3\n4 5\n* +\n"), Some(16));
    assert_eq!(try_parse_1(b"2 3\n4 5\n"), Some(0));
    assert_eq!(try_parse_1(b"7\n*\n"), Some(7));
    assert_eq!(try_parse_1(b"2 3\n4\n* +\n"), None);
    assert_eq!(try_parse_1(b"* +\n"), None);
    assert_eq!(try_parse_1(b"9223372036854775807 1\n1 1\n+ +\n"), None);
    assert_eq!(try_parse_1(b"9223372036854775807 1\n1 1\n* *\n"), None);
    assert_eq!(try_parse_1(b"9223372036854775806 1\n1 1\n* -\n"), None);
    assert_eq!(try_parse_1(b"9223372036854775805 1\n1 1\n* -\n"), Some(9223372036854775807));
}

#[test]
fn column_is_read_downwards() {
    let entry = read_column(b" 12 *").unwrap().unwrap();
    assert_eq!((entry.value, entry.signed, entry.times), (12, true, true));
    let entry = read_column(b"7+").unwrap().unwrap();
    assert_eq!((entry.value, entry.signed, entry.times), (7, true, false));
    let entry = read_column(b"x34x*").unwrap().unwrap();
    assert_eq!((entry.value, entry.signed, entry.times), (34, false, false));
    assert!(read_column(b" * ").unwrap().is_none());
    assert!(read_column(b"99999999999999999999").is_none());
    assert_eq!(fold(&vec![2, 3, 4], true), Some(24));
    assert_eq!(fold(&vec![2, 3, 4], false), Some(9));
    assert_eq!(fold(&vec![], true), Some(1));
    assert_eq!(fold(&vec![i64::MAX, 2], true), None);
}

#[test]
fn groups_are_read_from_the_right() {
    assert_eq!(try_parse_2(b"12\n34\n+*\n"), Some(13 + 24));
    assert_eq!(try_parse_2(b"1 2\n3 4\n+ *\n"), Some(24 + 13));
    assert_eq!(try_parse_2(b"12\n"), Some(0));
    assert_eq!(try_parse_2(b""), None);
    assert_eq!(try_parse_2(b"123\n4\n"), None);
    assert_eq!(try_parse_2("1é\n+ \n".as_bytes()), None);
}

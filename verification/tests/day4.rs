use daily_puzzles::day4::{count_adjacent, parse_1, parse_2, parse_text, try_parse_1, try_parse_2};

const INPUT_TEXT_1: &str = "
..@@.@@@@.
@@@.@.@.@@
@@@@@.@.@@
@.@@@@..@.
@@.@@@@.@@
.@@@@@@@.@
.@.@.@.@@@
@.@@@.@@@@
.@@@@@@@@.
@.@.@@@.@.
";

#[test]
fn test4_parse1() {
    assert_eq!(parse_1(&INPUT_TEXT_1), 13);
}

#[test]
fn test4_parse2() {
    assert_eq!(parse_2(&INPUT_TEXT_1), 43);
}

#[test]
fn rows_are_read_sign_by_sign() {
    assert_eq!(parse_text(b".@\n@@\n"), vec![vec![false, true], vec![true, true]]);
    assert_eq!(parse_text("é@\r\n".as_bytes()), vec![vec![false, true]]);
    assert_eq!(parse_text(b"\n\n"), Vec::<Vec<bool>>::new());
}

#[test]
fn rolls_around_a_place_are_counted() {
    let grid = parse_text(b"@@@\n@@@\n@@@\n");
    assert_eq!(count_adjacent(&grid, 1, 1), 8);
    assert_eq!(count_adjacent(&grid, 0, 0), 3);
    assert_eq!(count_adjacent(&grid, 0, 1), 5);
    assert_eq!(count_adjacent(&grid, 2, 2), 3);
}

#[test]
fn full_square_loses_its_corners_first() {
    assert_eq!(try_parse_1(b"@@@\n@@@\n@@@\n"), Some(4));
    assert_eq!(try_parse_2(b"@@@\n@@@\n@@@\n"), Some(9));
    assert_eq!(try_parse_1(b"...\n"), Some(0));
    assert_eq!(try_parse_2(b"@"), Some(1));
}

#[test]
fn grid_without_rows_or_with_a_short_row_has_no_answer() {
    assert_eq!(try_parse_1(b""), None);
    assert_eq!(try_parse_2(b"\n"), None);
    assert_eq!(try_parse_1(b"@@@\n@@\n"), None);
    assert_eq!(try_parse_1(b"@@\n@@@\n"), Some(4));
}

use daily_puzzles::day12::{
    begins_shape, count_drawing, find_goal, is_fit, parse_1, parse_goal, parse_text, try_parse_1,
    Goal, Reading,
};

const INPUT_TEXT_1: &str = "
0:
###
##.
##.

1:
###
.#.
###

4x4: 0 2
12x5: 1 1
3x3: 1 1
3x5: 1 1
";

#[test]
fn test12_shapes_and_spaces_are_read() {
    let (shapes, goals) = parse_text(INPUT_TEXT_1.as_bytes()).unwrap();
    assert_eq!(shapes, vec![7, 7]);
    assert_eq!(goals.len(), 4);
    assert_eq!((goals[0].x, goals[0].y), (4, 4));
    assert_eq!(goals[0].reqs, vec![0, 2]);
    assert_eq!((goals[1].x, goals[1].y), (12, 5));
    assert_eq!(goals[1].reqs, vec![1, 1]);
}

#[test]
fn test12_fit_spaces_are_counted() {
    // 16 >= 14, 60 >= 14, 9 < 14, 15 >= 14.
    assert_eq!(parse_1(INPUT_TEXT_1), 3);
    assert_eq!(try_parse_1(b""), Some(0));
    assert_eq!(try_parse_1(b"0:\n#\n"), Some(0));
    assert_eq!(try_parse_1(b"0:\n##\n2x1: 1\n1x1: 1\n"), Some(1));
}

#[test]
fn test12_line_kinds() {
    assert!(begins_shape(b"12:"));
    assert!(!begins_shape(b":"));
    assert!(!begins_shape(b"12"));
    assert!(!begins_shape(b"12: "));
    assert!(!begins_shape(b"a2:"));
    assert_eq!(count_drawing(b"#.#x#"), (3, 2));
    assert_eq!(count_drawing(b"x#"), (0, 0));
    assert_eq!(count_drawing(b""), (0, 0));
    assert_eq!(find_goal(b"ab12x34: 5"), Some((2, 4, 7)));
    assert_eq!(find_goal(b"1x: 12x3: 4"), Some((4, 6, 8)));
    assert_eq!(find_goal(b"12x34:5"), None);
    assert_eq!(find_goal(b"12x34 : 5"), None);
}

#[test]
fn test12_goal_readings() {
    match parse_goal(b"  7x8: 1 +2 3") {
        Reading::Space(goal) => {
            assert_eq!((goal.x, goal.y), (7, 8));
            assert_eq!(goal.reqs, vec![1, 2, 3]);
        }
        _ => panic!("a space"),
    }
    assert!(matches!(parse_goal(b"hello"), Reading::Nothing));
    assert!(matches!(parse_goal(b"7x8: "), Reading::Spoilt));
    assert!(matches!(parse_goal(b"7x8: 1  2"), Reading::Spoilt));
    assert!(matches!(parse_goal(b"7x8: 1 a"), Reading::Spoilt));
    assert!(matches!(
        parse_goal(b"99999999999999999999999999x8: 1"),
        Reading::Spoilt
    ));
}

#[test]
fn test12_texts_without_a_plan() {
    // A drawing before any shape has begun.
    assert!(parse_text(b"##.\n0:\n").is_none());
    assert!(parse_text(b"0:\n#\n3x3: x\n").is_none());
    assert_eq!(try_parse_1(b"##.\n"), None);
    // Lines of no kind are passed over.
    let (shapes, goals) = parse_text(b"0:\nhello\n#.\n\n#\n").unwrap();
    assert_eq!(shapes, vec![2]);
    assert!(goals.is_empty());
}

#[test]
fn test12_fit_or_no_answer() {
    let shapes = vec![7, 5];
    let goal = |x: usize, y: usize, reqs: Vec<usize>| Goal { x, y, reqs };
    assert_eq!(is_fit(&shapes, &goal(4, 3, vec![1, 1])), Some(true));
    assert_eq!(is_fit(&shapes, &goal(4, 3, vec![1, 1, 0])), None);
    assert_eq!(is_fit(&shapes, &goal(1, 11, vec![1, 1])), Some(false));
    assert_eq!(is_fit(&shapes, &goal(0, 0, vec![])), Some(true));
    assert_eq!(is_fit(&shapes, &goal(0, 0, vec![0])), Some(true));
    assert_eq!(is_fit(&shapes, &goal(usize::MAX, 2, vec![1])), None);
    assert_eq!(is_fit(&shapes, &goal(1, 1, vec![usize::MAX])), None);
    assert_eq!(is_fit(&shapes, &goal(1, 1, vec![usize::MAX / 7 - 1, 1])), Some(false));
    assert_eq!(is_fit(&shapes, &goal(1, 1, vec![usize::MAX / 7, 1])), None);
    assert_eq!(try_parse_1(b"0:\n#\n1x1: 1 1\n"), None);
}

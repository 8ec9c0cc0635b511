use daily_puzzles::day9::{
    draw, is_blank, is_covered, mark_edge, parse_1, parse_2, parse_text, remap_numbers,
    remap_points, render_grid, rounds_for, try_area, try_parse_1, try_parse_2,
};

const INPUT_TEXT_1: &str = "
7,1
11,1
11,7
9,7
9,5
2,5
2,3
7,3
";

#[test]
fn test9_parse1() {
    assert_eq!(parse_1(&INPUT_TEXT_1), 50);
}

#[test]
fn test9_parse2() {
    assert_eq!(parse_2(&INPUT_TEXT_1), 24);
}

#[test]
fn test9_tiles_are_read() {
    assert_eq!(parse_text(b"7,1\n\n-11,+1\n"), Some(vec![(7, 1), (-11, 1)]));
    assert_eq!(parse_text(b""), Some(vec![]));
    assert_eq!(parse_text(b"7\n"), None);
    assert_eq!(parse_text(b"7,1,2\n"), None);
    assert_eq!(parse_text(b"7,a\n"), None);
}

#[test]
fn test9_area_counts_both_ends() {
    assert_eq!(try_area((2, 5), (11, 1)), Some(50));
    assert_eq!(try_area((11, 1), (2, 5)), Some(50));
    assert_eq!(try_area((3, 3), (3, 3)), Some(1));
    assert_eq!(try_area((i64::MIN, 0), (0, 0)), None);
    assert_eq!(try_area((i64::MAX, 0), (0, 0)), None);
    assert_eq!(try_area((i64::MAX - 1, 0), (0, 0)), Some(i64::MAX));
    assert_eq!(try_area((4_000_000_000, 4_000_000_000), (0, 0)), None);
}

#[test]
fn test9_first_answer_edge_cases() {
    assert_eq!(try_parse_1(b""), Some(0));
    assert_eq!(try_parse_1(b"5,5\n"), Some(0));
    assert_eq!(try_parse_1(b"5,5\n5,5\n"), Some(1));
    assert_eq!(try_parse_1(b"5,5\nx\n"), None);
    assert_eq!(try_parse_1(b"0,0\n9223372036854775807,0\n"), None);
}

#[test]
fn test9_numbers_are_ranked() {
    let (map, rev) = remap_numbers(&vec![30, -5, 30, 7, 7, 100]);
    assert_eq!(rev, vec![-5, 7, 30, 100]);
    assert_eq!(map.len(), 4);
    assert_eq!(map[&-5], 0);
    assert_eq!(map[&7], 1);
    assert_eq!(map[&30], 2);
    assert_eq!(map[&100], 3);
    let (map, rev) = remap_numbers(&vec![]);
    assert!(map.is_empty());
    assert!(rev.is_empty());
}

#[test]
fn test9_points_are_ranked() {
    let points = parse_text(INPUT_TEXT_1.as_bytes()).unwrap();
    let (remapped, w, h) = remap_points(&points);
    assert_eq!(w, 4);
    assert_eq!(h, 4);
    assert_eq!(
        remapped,
        vec![(1, 0), (3, 0), (3, 3), (2, 3), (2, 2), (0, 2), (0, 1), (1, 1)]
    );
}

#[test]
fn test9_edges() {
    assert!(mark_edge((1, 2), (4, 2), 3, 2));
    assert!(mark_edge((4, 2), (1, 2), 1, 2));
    assert!(!mark_edge((1, 2), (4, 2), 5, 2));
    assert!(!mark_edge((1, 2), (4, 2), 3, 1));
    assert!(mark_edge((1, 2), (1, 5), 1, 4));
    assert!(!mark_edge((1, 2), (1, 5), 2, 4));
    // An edge that is not level runs down from its first corner.
    assert!(mark_edge((1, 2), (3, 5), 1, 5));
    assert!(!mark_edge((1, 2), (3, 5), 3, 5));
    let grid = draw(&vec![(0, 0), (2, 0), (2, 2), (0, 2)], 3, 3);
    assert_eq!(
        grid,
        vec![
            vec![true, true, true],
            vec![true, false, true],
            vec![true, true, true]
        ]
    );
    assert_eq!(draw(&vec![], 2, 1), vec![vec![false], vec![false]]);
}

#[test]
fn test9_loop_is_filled() {
    let square = vec![(1, 1), (3, 1), (3, 3), (1, 3)];
    let grid = render_grid(&square, 5, 4).unwrap();
    let expected: Vec<Vec<bool>> = (0..6)
        .map(|x| (0..5).map(|y| (1..=3).contains(&x) && (1..=3).contains(&y)).collect())
        .collect();
    assert_eq!(grid, expected);
}

#[test]
fn test9_last_fringe_is_not_taken_in() {
    // The one free cell at the rim is the whole first fringe; the search
    // ends at once and leaves it marked.
    let grid = render_grid(&vec![(0, 0), (1, 0)], 2, 0).unwrap();
    assert_eq!(grid, vec![vec![true], vec![true], vec![true]]);
    // Two free cells side by side are both found to lie outside.
    let grid = render_grid(&vec![(0, 0), (1, 0)], 1, 1).unwrap();
    assert_eq!(grid, vec![vec![true, false], vec![true, false]]);
    let grid = render_grid(&vec![], 0, 0).unwrap();
    assert_eq!(grid, vec![vec![true]]);
}

#[test]
fn test9_blank_and_covered() {
    assert!(is_blank(&vec![vec![false, false], vec![false, false]]));
    assert!(!is_blank(&vec![vec![false, false], vec![false, true]]));
    assert!(is_blank(&vec![]));
    let grid = vec![
        vec![true, true, false],
        vec![true, true, true],
        vec![false, true, true],
    ];
    assert!(is_covered(&grid, (0, 0), (1, 1)));
    assert!(is_covered(&grid, (1, 1), (0, 0)));
    assert!(is_covered(&grid, (2, 2), (1, 1)));
    assert!(!is_covered(&grid, (0, 0), (2, 2)));
    assert!(!is_covered(&grid, (0, 2), (0, 2)));
    assert!(is_covered(&grid, (1, 0), (1, 2)));
}

#[test]
fn test9_rounds() {
    assert_eq!(rounds_for(3, 4), Some(26));
    assert_eq!(rounds_for(0, 7), Some(2));
    assert_eq!(rounds_for(7, 0), Some(2));
    assert_eq!(rounds_for(usize::MAX, 2), None);
    assert_eq!(rounds_for(usize::MAX / 2, 1), None);
}

#[test]
fn test9_second_answer_edge_cases() {
    assert_eq!(try_parse_2(b""), None);
    assert_eq!(try_parse_2(b"4,4\n"), Some(0));
    assert_eq!(try_parse_2(b"1,1\n5,1\n5,4\n1,4\n"), Some(20));
    assert_eq!(try_parse_2(b"1,1\nx\n"), None);
}

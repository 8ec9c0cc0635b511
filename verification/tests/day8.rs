use daily_puzzles::day8::{
    circuit_sizes, closest_after, distance, is_measurable, join, parse_2, parse_text, product,
    solve_1, try_distance, try_parse_1, try_parse_2, try_solve_1, Pair,
};

const INPUT_TEXT_1: &str = "
162,817,812
57,618,57
906,360,560
592,479,940
352,342,300
466,668,158
542,29,236
431,825,988
739,650,466
52,470,668
216,146,977
819,987,18
117,168,530
805,96,715
346,949,466
970,615,88
941,993,340
862,61,35
984,92,344
425,690,689
";

#[test]
fn test8_parse1() {
    assert_eq!(solve_1(&INPUT_TEXT_1, 10), 40);
}

#[test]
fn test8_parse2() {
    assert_eq!(parse_2(&INPUT_TEXT_1), 25272);
}

#[test]
fn test8_points_are_read() {
    assert_eq!(
        parse_text(b"1,2,3\n\n-4,+5,6\n"),
        Some(vec![(1, 2, 3), (-4, 5, 6)])
    );
    assert_eq!(parse_text(b""), Some(vec![]));
    assert_eq!(parse_text(b"1,2\n"), None);
    assert_eq!(parse_text(b"1,2,3,4\n"), None);
    assert_eq!(parse_text(b"1,x,3\n"), None);
}

#[test]
fn test8_distance_is_squared() {
    assert_eq!(distance((0, 0, 0), (1, 2, 3)), 14);
    assert_eq!(distance((162, 817, 812), (425, 690, 689)), 263 * 263 + 127 * 127 + 123 * 123);
    assert_eq!(try_distance((5, 5, 5), (5, 5, 5)), Some(0));
    assert_eq!(try_distance((i64::MAX, 0, 0), (-1, 0, 0)), None);
    assert_eq!(try_distance((4_000_000_000, 0, 0), (0, 0, 0)), None);
    assert_eq!(try_distance((3_000_000_000, 0, 0), (0, 0, 0)), Some(9_000_000_000_000_000_000));
    assert!(is_measurable(&vec![(0, 0, 0), (1, 1, 1)]));
    assert!(!is_measurable(&vec![(0, 0, 0), (1, 1, 1), (4_000_000_000, 0, 0)]));
}

#[test]
fn test8_pairs_come_in_order() {
    let points = vec![(0, 0, 0), (10, 0, 0), (11, 0, 0), (1, 0, 0)];
    let mut seen: Vec<(i64, usize, usize)> = Vec::new();
    let mut last: Option<Pair> = None;
    while let Some(pair) = closest_after(&points, last) {
        seen.push((pair.dist, pair.i, pair.j));
        last = Some(pair);
    }
    assert_eq!(
        seen,
        vec![(1, 0, 3), (1, 1, 2), (81, 1, 3), (100, 0, 1), (100, 2, 3), (121, 0, 2)]
    );
}

#[test]
fn test8_join_takes_the_lower_number() {
    let mut circuit: Vec<u32> = vec![0, 1, 2, 3, 1];
    join(&mut circuit, 3, 1);
    assert_eq!(circuit, vec![0, 1, 2, 1, 1]);
    join(&mut circuit, 0, 4);
    assert_eq!(circuit, vec![0, 0, 2, 0, 0]);
    join(&mut circuit, 0, 1);
    assert_eq!(circuit, vec![0, 0, 2, 0, 0]);
    assert_eq!(circuit_sizes(&circuit), vec![4, 0, 1, 0, 0]);
}

#[test]
fn test8_product_of_the_largest_three() {
    assert_eq!(product(&vec![]), Some(1));
    assert_eq!(product(&vec![1]), Some(1));
    assert_eq!(product(&vec![1, 1]), Some(1));
    assert_eq!(product(&vec![2, 0]), Some(0));
    assert_eq!(product(&vec![2, 5, 0, 7, 3]), Some(105));
    assert_eq!(product(&vec![4, 0, 1, 0, 0]), Some(0));
    assert_eq!(product(&vec![70_000, 70_000, 0]), None);
    assert_eq!(product(&vec![2000, 2000, 2000]), None);
    assert_eq!(product(&vec![1000, 1000, 1000]), Some(1_000_000_000));
}

#[test]
fn test8_too_many_connections() {
    assert_eq!(try_solve_1(b"0,0,0\n1,0,0\n5,0,0\n", 3), Some(0));
    assert_eq!(try_solve_1(b"0,0,0\n1,0,0\n5,0,0\n", 4), None);
    assert_eq!(try_solve_1(b"0,0,0\n1,0,0\n5,0,0\n", 0), Some(1));
    assert_eq!(try_solve_1(b"0,0,0\n1,0,0\n5,0,0\n7,0,0\n", 1), Some(2));
    assert_eq!(try_parse_1(INPUT_TEXT_1.as_bytes()), None);
}

#[test]
fn test8_last_link() {
    assert_eq!(try_parse_2(b"3,0,0\n4,0,0\n10,0,0\n"), Some(40));
    assert_eq!(try_parse_2(b"3,0,0\n"), None);
    assert_eq!(try_parse_2(b""), None);
    assert_eq!(try_parse_2(b"3,0\n"), None);
}

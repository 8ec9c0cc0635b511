use daily_puzzles::cache::SolutionCache;
use daily_puzzles::combo::{add_sol, min_sol, solve_joltage, solve_joltage_bounded, subsolve};
use daily_puzzles::day10::{
    parse_1, parse_2, parse_button, parse_key, parse_nums, parse_text, solve_machine, try_parse_1,
    try_parse_2,
};
use daily_puzzles::machine::Machine;
use daily_puzzles::reach::fewest_presses;

const INPUT_TEXT_1: &str = "
[.##.] (3) (1,3) (2) (2,3) (0,2) (0,1) {3,5,4,7}
[...#.] (0,2,3,4) (2,3) (0,4) (0,1,2) (1,2,3,4) {7,5,12,7,2}
[.###.#] (0,1,2,3,4) (0,3,4) (0,1,2,4,5) (1,2) {10,11,11,5,10,5}
";

#[test]
fn test10_parse1() {
    assert_eq!(parse_1(&INPUT_TEXT_1), 7);
}

#[test]
fn test10_parse2() {
    assert_eq!(parse_2(&INPUT_TEXT_1), 10 + 12 + 11);
}

fn sample_machines() -> Vec<Machine> {
    parse_text(INPUT_TEXT_1.as_bytes()).unwrap()
}

#[test]
fn sample_machines_are_read_as_written() {
    let machines = sample_machines();
    assert_eq!(machines.len(), 3);
    assert_eq!(machines[0].key, 6);
    assert_eq!(machines[0].buttons, vec![8, 10, 4, 12, 5, 3]);
    assert_eq!(machines[0].joltage, vec![3, 5, 4, 7]);
    assert_eq!(machines[1].key, 8);
    assert_eq!(machines[2].key, 0b101110);
    assert_eq!(machines[2].buttons, vec![31, 25, 55, 6]);
}

#[test]
fn sample_locks_open_in_two_three_and_two_presses() {
    let machines = sample_machines();
    assert_eq!(solve_machine(&machines[0]), 2);
    assert_eq!(solve_machine(&machines[1]), 3);
    assert_eq!(solve_machine(&machines[2]), 2);
}

#[test]
fn sample_counters_take_ten_twelve_and_eleven_presses() {
    let machines = sample_machines();
    assert_eq!(solve_joltage(&machines[0]), Some(10));
    assert_eq!(solve_joltage(&machines[1]), Some(12));
    assert_eq!(solve_joltage(&machines[2]), Some(11));
}

#[test]
fn key_zero_needs_no_press() {
    assert_eq!(fewest_presses(0, &[]), Some(0));
    assert_eq!(fewest_presses(0, &[1, 2, 4]), Some(0));
    let machine = Machine { key: 0, buttons: vec![3, 5], joltage: vec![1, 1, 1] };
    assert_eq!(solve_machine(&machine), 0);
}

#[test]
fn order_of_buttons_does_not_change_the_depth() {
    assert_eq!(fewest_presses(6, &[8, 10, 4, 12, 5, 3]), Some(2));
    assert_eq!(fewest_presses(6, &[3, 5, 12, 4, 10, 8]), Some(2));
    assert_eq!(fewest_presses(6, &[4, 3, 8, 5, 10, 12]), Some(2));
}

#[test]
fn lock_without_a_way_to_the_key_is_reported() {
    assert_eq!(fewest_presses(1, &[]), None);
    assert_eq!(fewest_presses(1, &[2, 4, 6]), None);
    assert_eq!(fewest_presses(7, &[1, 2, 4]), Some(3));
}

#[test]
fn zero_target_takes_no_press() {
    let mut cache = SolutionCache::new(16);
    assert_eq!(subsolve(&[], &[0, 0, 0], None, &mut cache), Some(0));
    let buttons = vec![vec![1, 0, 1], vec![0, 1, 1]];
    assert_eq!(subsolve(&buttons, &[0, 0, 0], Some(0), &mut cache), Some(0));
    assert_eq!(subsolve(&buttons, &[], None, &mut cache), Some(0));
}

#[test]
fn single_button_is_pressed_as_often_as_the_target_says() {
    let buttons = vec![vec![1, 0, 1]];
    for m in 0..6usize {
        let mut cache = SolutionCache::new(16);
        assert_eq!(subsolve(&buttons, &[m, 0, m], None, &mut cache), Some(m));
    }
}

#[test]
fn no_buttons_cannot_reach_a_target() {
    let mut cache = SolutionCache::new(16);
    assert_eq!(subsolve(&[], &[0, 1], None, &mut cache), None);
    let machine = Machine { key: 0, buttons: vec![], joltage: vec![2] };
    assert_eq!(solve_joltage(&machine), None);
}

#[test]
fn unreachable_target_is_unsatisfiable() {
    let mut cache = SolutionCache::new(16);
    let buttons = vec![vec![1, 1]];
    assert_eq!(subsolve(&buttons, &[1, 2], Some(3), &mut cache), None);
}

#[test]
fn button_that_touches_nothing_is_never_pressed() {
    let mut cache = SolutionCache::new(16);
    let buttons = vec![vec![0, 0], vec![1, 1]];
    assert_eq!(subsolve(&buttons, &[2, 2], None, &mut cache), Some(2));
    assert_eq!(subsolve(&buttons, &[2, 2], Some(4), &mut cache), Some(2));
}

#[test]
fn capacity_of_the_cache_does_not_change_the_answer() {
    let machines = sample_machines();
    for capacity in [1usize, 2, 3, 7, 100, 100_000] {
        assert_eq!(solve_joltage_bounded(&machines[0], capacity), Some(10));
        assert_eq!(solve_joltage_bounded(&machines[1], capacity), Some(12));
        assert_eq!(solve_joltage_bounded(&machines[2], capacity), Some(11));
    }
}

#[test]
fn cache_that_was_used_before_gives_the_same_answer() {
    let buttons = vec![vec![1, 1, 0], vec![0, 1, 1], vec![1, 0, 0]];
    let mut cache = SolutionCache::new(4);
    let first = subsolve(&buttons, &[3, 4, 2], Some(9), &mut cache);
    let second = subsolve(&buttons, &[3, 4, 2], None, &mut cache);
    let mut fresh = SolutionCache::new(1000);
    let third = subsolve(&buttons, &[3, 4, 2], Some(9), &mut fresh);
    assert_eq!(first, Some(5));
    assert_eq!(second, Some(5));
    assert_eq!(third, Some(5));
}

#[test]
fn budget_does_not_change_the_answer() {
    let buttons = vec![vec![1, 1, 0], vec![0, 1, 1], vec![1, 0, 0]];
    for budget in [None, Some(0), Some(1), Some(3), Some(4), Some(5), Some(9), Some(1000)] {
        let mut cache = SolutionCache::new(20);
        assert_eq!(subsolve(&buttons, &[3, 4, 2], budget, &mut cache), Some(5));
        assert_eq!(subsolve(&buttons, &[1, 0, 1], budget, &mut cache), None);
        assert_eq!(subsolve(&buttons, &[0, 0, 0], budget, &mut cache), Some(0));
    }
    let mut cache = SolutionCache::new(20);
    assert_eq!(subsolve(&[vec![1]], &[5], Some(2), &mut cache), Some(5));
    assert_eq!(subsolve(&[vec![1]], &[5], None, &mut cache), Some(5));
}

#[test]
fn cleared_or_shrunk_cache_gives_the_same_answer() {
    let buttons = vec![vec![1, 1, 0], vec![0, 1, 1], vec![1, 0, 0]];
    let mut cache = SolutionCache::new(50);
    assert_eq!(subsolve(&buttons, &[3, 4, 2], Some(9), &mut cache), Some(5));
    cache.resize(2);
    assert_eq!(subsolve(&buttons, &[3, 4, 2], Some(9), &mut cache), Some(5));
    assert_eq!(subsolve(&buttons, &[1, 0, 1], None, &mut cache), None);
    cache.clear();
    assert_eq!(subsolve(&buttons, &[3, 4, 2], Some(9), &mut cache), Some(5));
    cache.resize(1);
    assert_eq!(subsolve(&buttons, &[3, 4, 2], None, &mut cache), Some(5));
    assert_eq!(subsolve(&buttons, &[1, 0, 1], Some(1), &mut cache), None);
}

#[test]
fn cache_forgets_on_clear_and_resize() {
    let mut cache = SolutionCache::new(3);
    cache.put((1, vec![1]), Some(1));
    cache.put((2, vec![2]), Some(2));
    cache.put((3, vec![3]), Some(3));
    cache.resize(2);
    assert_eq!(cache.get(&(1, vec![1])), None);
    assert_eq!(cache.get(&(2, vec![2])), Some(Some(2)));
    assert_eq!(cache.get(&(3, vec![3])), Some(Some(3)));
    cache.resize(5);
    cache.put((4, vec![4]), None);
    cache.put((5, vec![5]), None);
    cache.put((6, vec![6]), None);
    assert_eq!(cache.get(&(2, vec![2])), Some(Some(2)));
    assert_eq!(cache.get(&(3, vec![3])), Some(Some(3)));
    cache.clear();
    assert_eq!(cache.get(&(2, vec![2])), None);
    assert_eq!(cache.get(&(6, vec![6])), None);
    cache.put((7, vec![]), Some(0));
    assert_eq!(cache.get(&(7, vec![])), Some(Some(0)));
}

#[test]
fn cache_returns_what_was_put_and_forgets_the_least_recently_used() {
    let mut cache = SolutionCache::new(2);
    assert_eq!(cache.get(&(1, vec![1, 2])), None);
    cache.put((1, vec![1, 2]), Some(3));
    cache.put((2, vec![1, 2]), None);
    assert_eq!(cache.get(&(1, vec![1, 2])), Some(Some(3)));
    assert_eq!(cache.get(&(1, vec![2, 1])), None);
    cache.put((3, vec![]), Some(0));
    assert_eq!(cache.get(&(2, vec![1, 2])), None);
    assert_eq!(cache.get(&(1, vec![1, 2])), Some(Some(3)));
    assert_eq!(cache.get(&(3, vec![])), Some(Some(0)));
    cache.put((1, vec![1, 2]), Some(4));
    assert_eq!(cache.get(&(1, vec![1, 2])), Some(Some(4)));
    assert_eq!(cache.get(&(3, vec![])), Some(Some(0)));
}

#[test]
fn answers_are_combined_as_minimum_and_sum() {
    assert_eq!(min_sol(Some(3), Some(5)), Some(3));
    assert_eq!(min_sol(Some(5), Some(3)), Some(3));
    assert_eq!(min_sol(Some(3), None), Some(3));
    assert_eq!(min_sol(None, Some(5)), Some(5));
    assert_eq!(min_sol(None, None), None);
    assert_eq!(add_sol(Some(3), Some(5)), Some(8));
    assert_eq!(add_sol(Some(3), None), None);
    assert_eq!(add_sol(None, Some(5)), None);
    assert_eq!(add_sol(None, None), None);
}

#[test]
fn words_are_read_one_by_one() {
    assert_eq!(parse_key(b".##."), Some(6));
    assert_eq!(parse_key(b"#"), Some(1));
    assert_eq!(parse_key(b""), Some(0));
    assert_eq!(parse_nums(b"3,5,4,7"), Some(vec![3, 5, 4, 7]));
    assert_eq!(parse_nums(b"3,,4"), None);
    assert_eq!(parse_nums(b""), None);
    assert_eq!(parse_button(b"1,3"), Some(10));
    assert_eq!(parse_button(b"0"), Some(1));
    assert_eq!(parse_button(b"x"), None);
    assert_eq!(parse_button(b"99999"), None);
}

#[test]
fn malformed_text_has_no_answer() {
    assert!(parse_text(b"[.#] (0) {1,2}\n[.#]  (1) {1,2}\n").is_none());
    assert_eq!(try_parse_1(b"[.#] (0) {1,2}\n[ (1) {1,2}\n"), None);
    assert_eq!(try_parse_2(b"[.#] (a) {1,2}\n"), None);
    assert_eq!(try_parse_1(b"[.#] (0) {1,2}"), None);
    assert_eq!(try_parse_1(b"[.#] (0) (1) {1,2}"), Some(1));
    assert_eq!(try_parse_2(b"[.#] (0) (1) {1,2}\r\n"), Some(3));
    assert_eq!(try_parse_2(b"[.#] (0) {1,2}"), None);
    assert_eq!(try_parse_1(b""), Some(0));
}

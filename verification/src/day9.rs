//! Red tiles on a floor, and the largest rectangle with two of them for
//! opposite corners.
//!
//! A line of the text holds the two coordinates of a red tile, with a comma
//! between them. The tiles, in the order of the text, are the corners of a
//! loop; for the second answer a rectangle must lie within the loop.

use crate::day4::{adjacent, cells, count_adjacent, well_formed};
use crate::text::{lines, nonempty_lines, parse_i64_list, spec_parse_i64_fields, split, views};
use crate::tuples::{ascending, collect_pair, sorted};
use std::collections::HashMap;
use vstd::prelude::*;
use vstd::std_specs::hash::group_hash_axioms;
use vstd::string::StringSliceAdditionalSpecFns;

verus! {

/// The byte that stands between the coordinates of a tile.
pub const COMMA: u8 = 44;

/// The tile that a line describes, if it holds two numbers.
pub open spec fn spec_parse_point(line: Seq<u8>) -> Option<(i64, i64)> {
    match spec_parse_i64_fields(split(line, COMMA)) {
        Some(numbers) => if numbers.len() == 2 {
            Some((numbers[0], numbers[1]))
        } else {
            None
        },
        None => None,
    }
}

/// The tiles that a text describes, one for every line that is not empty.
/// There are none if one of the lines does not describe a tile.
pub open spec fn spec_parse_text(text: Seq<u8>) -> Option<Seq<(i64, i64)>> {
    let rows = nonempty_lines(text);
    if forall|i: int| 0 <= i < rows.len() ==> spec_parse_point(#[trigger] rows[i]) is Some {
        Some(Seq::new(rows.len(), |i: int| spec_parse_point(rows[i])->0))
    } else {
        None
    }
}

/// Reads the tile that a line describes.
pub fn parse_point(line: &[u8]) -> (point: Option<(i64, i64)>)
    ensures
        point == spec_parse_point(line@),
{
    match parse_i64_list(line, COMMA) {
        Some(numbers) => collect_pair(numbers),
        None => None,
    }
}

/// Reads the tiles that a text describes.
pub fn parse_text(text: &[u8]) -> (points: Option<Vec<(i64, i64)>>)
    ensures
        points is Some <==> spec_parse_text(text@) is Some,
        points matches Some(read) ==> Some(read@) == spec_parse_text(text@),
{
    let found = lines(text);
    let ghost rows = nonempty_lines(text@);
    let mut points: Vec<(i64, i64)> = Vec::new();
    let mut i: usize = 0;
    while i < found.len()
        invariant
            i <= found@.len(),
            views(found@) == rows,
            rows == nonempty_lines(text@),
            points@.len() == i,
            forall|k: int| 0 <= k < i ==> spec_parse_point(#[trigger] rows[k]) == Some(points@[k]),
        decreases found@.len() - i,
    {
        assert(rows[i as int] == found@[i as int]@);
        match parse_point(found[i]) {
            Some(point) => {
                points.push(point);
            },
            None => {
                assert(spec_parse_point(rows[i as int]) is None);
                return None;
            },
        }
        i += 1;
    }
    assert(points@ =~= spec_parse_text(text@)->0);
    Some(points)
}

// ---------------------------------------------------------------------------
// Areas
// ---------------------------------------------------------------------------

/// How far two coordinates are apart.
pub open spec fn apart(a: i64, b: i64) -> int {
    if a >= b {
        a - b
    } else {
        b - a
    }
}

/// How many tiles the rectangle with the corners `a` and `b` covers.
pub open spec fn area(a: (i64, i64), b: (i64, i64)) -> int {
    (apart(a.0, b.0) + 1) * (apart(a.1, b.1) + 1)
}

/// The area of the rectangle with the corners `a` and `b`, if its sides and
/// the area itself can be held in 64 bits.
pub open spec fn spec_area(a: (i64, i64), b: (i64, i64)) -> Option<i64> {
    if apart(a.0, b.0) < i64::MAX && apart(a.1, b.1) < i64::MAX && area(a, b) <= i64::MAX {
        Some(area(a, b) as i64)
    } else {
        None
    }
}

/// The length of a side between two coordinates, both ends counted, if it
/// can be held in 64 bits.
fn side(a: i64, b: i64) -> (length: Option<i64>)
    ensures
        apart(a, b) < i64::MAX ==> length == Some((apart(a, b) + 1) as i64),
        apart(a, b) >= i64::MAX ==> length is None,
{
    let difference: Option<i64> = if a >= b {
        a.checked_sub(b)
    } else {
        b.checked_sub(a)
    };
    match difference {
        Some(d) => d.checked_add(1),
        None => None,
    }
}

/// Computes the area of the rectangle with the corners `a` and `b`.
pub fn try_area(a: (i64, i64), b: (i64, i64)) -> (size: Option<i64>)
    ensures
        size == spec_area(a, b),
{
    match (side(a.0, b.0), side(a.1, b.1)) {
        (Some(across), Some(down)) => across.checked_mul(down),
        (Some(across), None) => None,
        (None, _) => None,
    }
}

/// The larger of two numbers.
pub open spec fn larger(a: i64, b: i64) -> i64 {
    if a >= b {
        a
    } else {
        b
    }
}

/// The largest area so far, `best`, and the areas of the rectangles with
/// one corner at the tile `i` and the other at a tile after it and before
/// `upto`, of those that `allowed` admits. There is none if one of these
/// areas cannot be computed.
pub open spec fn best_with(
    points: Seq<(i64, i64)>,
    allowed: spec_fn(int, int) -> bool,
    best: i64,
    i: int,
    upto: int,
) -> Option<i64>
    decreases upto - i,
{
    if upto <= i + 1 {
        Some(best)
    } else {
        match best_with(points, allowed, best, i, upto - 1) {
            Some(before) => if allowed(i, upto - 1) {
                match spec_area(points[i], points[upto - 1]) {
                    Some(size) => Some(larger(before, size)),
                    None => None,
                }
            } else {
                Some(before)
            },
            None => None,
        }
    }
}

/// The largest area of the rectangles with one corner at one of the first
/// `upto` tiles and the other at a later tile, of those that `allowed`
/// admits; nothing if there is no such rectangle. There is none if one of
/// these areas cannot be computed.
pub open spec fn best_upto(
    points: Seq<(i64, i64)>,
    allowed: spec_fn(int, int) -> bool,
    upto: int,
) -> Option<i64>
    decreases upto,
{
    if upto <= 0 {
        Some(0i64)
    } else {
        match best_upto(points, allowed, upto - 1) {
            Some(before) => best_with(points, allowed, before, upto - 1, points.len() as int),
            None => None,
        }
    }
}

/// Once an area cannot be computed, no later tile helps.
pub proof fn lemma_best_with_fails(
    points: Seq<(i64, i64)>,
    allowed: spec_fn(int, int) -> bool,
    best: i64,
    i: int,
    upto: int,
    later: int,
)
    requires
        upto <= later,
        best_with(points, allowed, best, i, upto) is None,
    ensures
        best_with(points, allowed, best, i, later) is None,
    decreases later - upto,
{
    if upto < later {
        lemma_best_with_fails(points, allowed, best, i, upto, later - 1);
    }
}

/// Once an area cannot be computed, no later tile helps.
pub proof fn lemma_best_upto_fails(
    points: Seq<(i64, i64)>,
    allowed: spec_fn(int, int) -> bool,
    upto: int,
    later: int,
)
    requires
        0 <= upto <= later,
        best_upto(points, allowed, upto) is None,
    ensures
        best_upto(points, allowed, later) is None,
    decreases later - upto,
{
    if upto < later {
        lemma_best_upto_fails(points, allowed, upto, later - 1);
    }
}

/// Any two tiles may be the corners of a rectangle.
pub open spec fn any_pair() -> spec_fn(int, int) -> bool {
    |i: int, j: int| true
}

/// The first answer: the largest area of a rectangle with two of the
/// tiles for opposite corners, or nothing if there are fewer than two tiles.
pub open spec fn spec_answer_1(text: Seq<u8>) -> Option<i64> {
    match spec_parse_text(text) {
        Some(points) => best_upto(points, any_pair(), points.len() as int),
        None => None,
    }
}

/// Finds the largest rectangle with two of the tiles for opposite corners.
pub fn try_parse_1(text: &[u8]) -> (answer: Option<i64>)
    ensures
        answer == spec_answer_1(text@),
{
    let points = match parse_text(text) {
        Some(points) => points,
        None => {
            return None;
        },
    };
    let n = points.len();
    let mut best: i64 = 0;
    let mut i: usize = 0;
    while i < n
        invariant
            i <= n,
            n == points@.len(),
            Some(points@) == spec_parse_text(text@),
            best_upto(points@, any_pair(), i as int) == Some(best),
        decreases n - i,
    {
        let ghost start = best;
        let mut j: usize = i + 1;
        while j < n
            invariant
                i < n,
                i + 1 <= j <= n,
                n == points@.len(),
                Some(points@) == spec_parse_text(text@),
                best_upto(points@, any_pair(), i as int) == Some(start),
                best_with(points@, any_pair(), start, i as int, j as int) == Some(best),
            decreases n - j,
        {
            match try_area(points[i], points[j]) {
                Some(size) => {
                    if size > best {
                        best = size;
                    }
                },
                None => {
                    proof {
                        assert(any_pair()(i as int, j as int));
                        assert(best_with(points@, any_pair(), start, i as int, j + 1) is None);
                        lemma_best_with_fails(points@, any_pair(), start, i as int, j + 1, n as int);
                        assert(best_upto(points@, any_pair(), i + 1) is None);
                        lemma_best_upto_fails(points@, any_pair(), i + 1, n as int);
                    }
                    return None;
                },
            }
            assert(any_pair()(i as int, j as int));
            j += 1;
        }
        i += 1;
    }
    Some(best)
}

/// The largest area of a rectangle with two of the tiles for opposite
/// corners.
pub fn parse_1(text: &str) -> (answer: i64)
    requires
        spec_answer_1(text.spec_bytes()) is Some,
    ensures
        Some(answer) == spec_answer_1(text.spec_bytes()),
{
    try_parse_1(text.as_bytes()).unwrap()
}

// ---------------------------------------------------------------------------
// Coordinates by their ranks
// ---------------------------------------------------------------------------

/// Whether every number is less than the next.
pub open spec fn increasing(numbers: Seq<i64>) -> bool {
    forall|i: int, j: int| 0 <= i < j < numbers.len() ==> numbers[i] < numbers[j]
}

/// Whether every number of `some` is among `all`.
pub open spec fn among(some: Seq<i64>, all: Seq<i64>) -> bool {
    forall|i: int| 0 <= i < some.len() ==> all.contains(#[trigger] some[i])
}

/// Whether `ranked` holds the numbers of `coords`, each of them once, in
/// ascending order.
pub open spec fn is_ranking(coords: Seq<i64>, ranked: Seq<i64>) -> bool {
    increasing(ranked) && among(ranked, coords) && among(coords, ranked)
}

/// Two lists of increasing numbers that hold the same numbers are one
/// list.
pub proof fn lemma_same_numbers(first: Seq<i64>, second: Seq<i64>)
    requires
        increasing(first),
        increasing(second),
        among(first, second),
        among(second, first),
    ensures
        first == second,
    decreases first.len(),
{
    if first.len() == 0 {
        if second.len() > 0 {
            assert(first.contains(second[0]));
        }
        assert(first =~= second);
    } else {
        let top = first.last();
        assert(second.contains(first[first.len() - 1]));
        let at = choose|k: int| 0 <= k < second.len() && second[k] == top;
        assert(first.contains(second[second.len() - 1]));
        let back = choose|k: int| 0 <= k < first.len() && first[k] == second.last();
        assert(second.last() == top);
        let fewer = first.drop_last();
        let less = second.drop_last();
        assert forall|i: int| 0 <= i < fewer.len() implies less.contains(#[trigger] fewer[i]) by {
            assert(second.contains(first[i]));
            let k = choose|k: int| 0 <= k < second.len() && second[k] == first[i];
            assert(first[i] < top);
            assert(k < second.len() - 1);
            assert(less[k] == fewer[i]);
        }
        assert forall|i: int| 0 <= i < less.len() implies fewer.contains(#[trigger] less[i]) by {
            assert(first.contains(second[i]));
            let k = choose|k: int| 0 <= k < first.len() && first[k] == second[i];
            assert(second[i] < top);
            assert(k < first.len() - 1);
            assert(fewer[k] == less[i]);
        }
        lemma_same_numbers(fewer, less);
        assert(first =~= fewer.push(top));
        assert(second =~= less.push(top));
    }
}

/// The numbers of `coords`, each of them once, in ascending order.
pub open spec fn spec_ranks(coords: Seq<i64>) -> Seq<i64> {
    choose|ranked: Seq<i64>| is_ranking(coords, ranked)
}

/// The place of a number among ranked numbers.
pub open spec fn rank_of(ranked: Seq<i64>, number: i64) -> int {
    choose|k: int| 0 <= k < ranked.len() && ranked[k] == number
}

/// Among increasing numbers a number has one place.
pub proof fn lemma_rank(ranked: Seq<i64>, k: int)
    requires
        increasing(ranked),
        0 <= k < ranked.len(),
    ensures
        rank_of(ranked, ranked[k]) == k,
{
    let found = rank_of(ranked, ranked[k]);
    assert(0 <= found < ranked.len() && ranked[found] == ranked[k]);
    if found < k {
        assert(ranked[found] < ranked[k]);
    }
    if k < found {
        assert(ranked[k] < ranked[found]);
    }
}

/// Ranks the numbers of a list: gives the numbers, each of them once, in
/// ascending order, and for every number its place among them.
pub fn remap_numbers(coords: &Vec<i64>) -> (remap: (HashMap<i64, usize>, Vec<i64>))
    ensures
        remap.1@ == spec_ranks(coords@),
        is_ranking(coords@, remap.1@),
        forall|number: i64| #[trigger]
            remap.0@.contains_key(number) <==> remap.1@.contains(number),
        forall|k: int|
            0 <= k < remap.1@.len() ==> remap.0@.contains_key(#[trigger] remap.1@[k])
                && remap.0@[remap.1@[k]] == k,
{
    broadcast use group_hash_axioms;

    let mut copy: Vec<i64> = Vec::new();
    let mut i: usize = 0;
    while i < coords.len()
        invariant
            i <= coords@.len(),
            copy@ == coords@.take(i as int),
        decreases coords@.len() - i,
    {
        copy.push(coords[i]);
        assert(copy@ =~= coords@.take(i + 1));
        i += 1;
    }
    assert(copy@ =~= coords@);
    let ordered = sorted(copy);
    let mut rev: Vec<i64> = Vec::new();
    i = 0;
    while i < ordered.len()
        invariant
            i <= ordered@.len(),
            ascending(ordered@),
            increasing(rev@),
            i == 0 ==> rev@.len() == 0,
            i > 0 ==> rev@.len() > 0 && rev@.last() == ordered@[i - 1],
            among(rev@, ordered@),
            forall|k: int| 0 <= k < i ==> rev@.contains(#[trigger] ordered@[k]),
        decreases ordered@.len() - i,
    {
        let number = ordered[i];
        let ghost before = rev@;
        if i == 0 || ordered[i - 1] != number {
            rev.push(number);
            assert(rev@[rev@.len() - 1] == number);
            assert forall|k: int| 0 <= k < i + 1 implies rev@.contains(#[trigger] ordered@[k]) by {
                if k < i {
                    assert(before.contains(ordered@[k]));
                    let at = choose|at: int| 0 <= at < before.len() && before[at] == ordered@[k];
                    assert(rev@[at] == ordered@[k]);
                }
            }
            assert forall|a: int, b: int| 0 <= a < b < rev@.len() implies rev@[a] < rev@[b] by {
                assert(rev@[a] == before[a]);
                if b < before.len() {
                    assert(rev@[b] == before[b]);
                } else {
                    assert(i > 0);
                    if a < before.len() - 1 {
                        assert(before[a] < before[before.len() - 1]);
                    }
                    assert(ordered@[i - 1] <= ordered@[i as int]);
                }
            }
            assert forall|k: int| 0 <= k < rev@.len() implies ordered@.contains(
                #[trigger] rev@[k],
            ) by {
                if k < before.len() {
                    assert(ordered@.contains(before[k]));
                } else {
                    assert(ordered@[i as int] == number);
                }
            }
        } else {
            assert forall|k: int| 0 <= k < i + 1 implies rev@.contains(#[trigger] ordered@[k]) by {
                if k == i {
                    assert(rev@[rev@.len() - 1] == number);
                }
            }
        }
        i += 1;
    }
    proof {
        assert forall|k: int| 0 <= k < rev@.len() implies coords@.contains(#[trigger] rev@[k]) by {
            assert(ordered@.contains(rev@[k]));
            vstd::seq_lib::to_multiset_contains(ordered@, rev@[k]);
            vstd::seq_lib::to_multiset_contains(coords@, rev@[k]);
        }
        assert forall|k: int| 0 <= k < coords@.len() implies rev@.contains(#[trigger] coords@[k]) by {
            assert(coords@.contains(coords@[k]));
            vstd::seq_lib::to_multiset_contains(ordered@, coords@[k]);
            vstd::seq_lib::to_multiset_contains(coords@, coords@[k]);
            let at = choose|at: int| 0 <= at < ordered@.len() && ordered@[at] == coords@[k];
            assert(rev@.contains(ordered@[at]));
        }
        assert(is_ranking(coords@, rev@));
        let chosen = spec_ranks(coords@);
        assert(is_ranking(coords@, chosen));
        assert forall|k: int| 0 <= k < rev@.len() implies chosen.contains(#[trigger] rev@[k]) by {
            assert(coords@.contains(rev@[k]));
            let at = choose|at: int| 0 <= at < coords@.len() && coords@[at] == rev@[k];
            assert(chosen.contains(coords@[at]));
        }
        assert forall|k: int| 0 <= k < chosen.len() implies rev@.contains(#[trigger] chosen[k]) by {
            assert(coords@.contains(chosen[k]));
            let at = choose|at: int| 0 <= at < coords@.len() && coords@[at] == chosen[k];
            assert(rev@.contains(coords@[at]));
        }
        lemma_same_numbers(rev@, chosen);
    }
    let mut map: HashMap<i64, usize> = HashMap::new();
    i = 0;
    while i < rev.len()
        invariant
            i <= rev@.len(),
            increasing(rev@),
            forall|number: i64| #[trigger]
                map@.contains_key(number) <==> rev@.take(i as int).contains(number),
            forall|k: int|
                0 <= k < i ==> map@.contains_key(#[trigger] rev@[k]) && map@[rev@[k]] == k,
        decreases rev@.len() - i,
    {
        let ghost before = map@;
        map.insert(rev[i], i);
        proof {
            let number = rev@[i as int];
            let shorter = rev@.take(i as int);
            let longer = rev@.take(i + 1);
            assert forall|other: i64| #[trigger]
                map@.contains_key(other) <==> longer.contains(other) by {
                if other == number {
                    assert(longer[i as int] == other);
                } else if before.contains_key(other) {
                    let at = choose|at: int| 0 <= at < shorter.len() && shorter[at] == other;
                    assert(longer[at] == other);
                } else if longer.contains(other) {
                    let at = choose|at: int| 0 <= at < longer.len() && longer[at] == other;
                    assert(shorter[at] == other);
                }
            }
            assert forall|k: int| 0 <= k < i + 1 implies map@.contains_key(#[trigger] rev@[k])
                && map@[rev@[k]] == k by {
                if k < i {
                    assert(rev@[k] < rev@[i as int]);
                }
            }
        }
        i += 1;
    }
    assert(rev@.take(rev@.len() as int) =~= rev@);
    (map, rev)
}

// ---------------------------------------------------------------------------
// The floor as a grid
// ---------------------------------------------------------------------------

/// The grid of `w` columns of `h` cells each in which `cell` says what
/// every cell holds.
pub open spec fn table(w: int, h: int, cell: spec_fn(int, int) -> bool) -> Seq<Seq<bool>> {
    Seq::new(w as nat, |x: int| Seq::new(h as nat, |y: int| cell(x, y)))
}

/// Whether a grid has `w` columns of `h` cells each.
pub open spec fn shaped(grid: Seq<Seq<bool>>, w: int, h: int) -> bool {
    grid.len() == w && forall|x: int| 0 <= x < w ==> (#[trigger] grid[x]).len() == h
}

/// The lower of two numbers.
pub open spec fn lo(a: int, b: int) -> int {
    if a <= b {
        a
    } else {
        b
    }
}

/// The higher of two numbers.
pub open spec fn hi(a: int, b: int) -> int {
    if a <= b {
        b
    } else {
        a
    }
}

/// Whether the cell at `x`, `y` lies on the edge from `a` to `b`. An edge
/// between two corners of one height runs across; any other edge runs down
/// from `a`, as far as the height of `b`.
pub open spec fn on_edge(a: (usize, usize), b: (usize, usize), x: int, y: int) -> bool {
    if a.1 == b.1 {
        y == a.1 && lo(a.0 as int, b.0 as int) <= x <= hi(a.0 as int, b.0 as int)
    } else {
        x == a.0 && lo(a.1 as int, b.1 as int) <= y <= hi(a.1 as int, b.1 as int)
    }
}

/// Whether the cell at `x`, `y` lies on one of the first `upto` edges of
/// the loop, where every corner has an edge to the next and the last to the
/// first.
pub open spec fn drawn(corners: Seq<(usize, usize)>, upto: int, x: int, y: int) -> bool
    decreases upto,
{
    upto > 0 && (drawn(corners, upto - 1, x, y) || on_edge(
        corners[upto - 1],
        corners[upto % (corners.len() as int)],
        x,
        y,
    ))
}

/// The grid in which the cells on the edges of the loop are marked.
pub open spec fn edge_marks(corners: Seq<(usize, usize)>, w: int, h: int) -> Seq<Seq<bool>> {
    table(w, h, |x: int, y: int| drawn(corners, corners.len() as int, x, y))
}

/// Whether the edge from `a` to `b` marks the cell at `x`, `y`.
pub fn mark_edge(a: (usize, usize), b: (usize, usize), x: usize, y: usize) -> (marked: bool)
    ensures
        marked == on_edge(a, b, x as int, y as int),
{
    if a.1 == b.1 {
        let xmin = if a.0 <= b.0 {
            a.0
        } else {
            b.0
        };
        let xmax = if a.0 <= b.0 {
            b.0
        } else {
            a.0
        };
        y == a.1 && xmin <= x && x <= xmax
    } else {
        let ymin = if a.1 <= b.1 {
            a.1
        } else {
            b.1
        };
        let ymax = if a.1 <= b.1 {
            b.1
        } else {
            a.1
        };
        x == a.0 && ymin <= y && y <= ymax
    }
}

/// Whether one of the edges of the loop marks the cell at `x`, `y`.
pub fn is_drawn(corners: &Vec<(usize, usize)>, x: usize, y: usize) -> (marked: bool)
    ensures
        marked == drawn(corners@, corners@.len() as int, x as int, y as int),
{
    let n = corners.len();
    let mut i: usize = 0;
    while i < n
        invariant
            i <= n,
            n == corners@.len(),
            !drawn(corners@, i as int, x as int, y as int),
        decreases n - i,
    {
        let next = if i + 1 == n {
            0
        } else {
            i + 1
        };
        assert(next == (i + 1) % (n as int)) by {
            if i + 1 == n {
                assert((n as int) % (n as int) == 0) by (nonlinear_arith)
                    requires
                        n > 0,
                ;
            } else {
                assert((i + 1) % (n as int) == i + 1) by (nonlinear_arith)
                    requires
                        0 <= i + 1 < n,
                ;
            }
        }
        if mark_edge(corners[i], corners[next], x, y) {
            proof {
                lemma_drawn_stays(corners@, i + 1, n as int, x as int, y as int);
            }
            return true;
        }
        i += 1;
    }
    false
}

/// A cell on one of the first edges is on one of the edges.
pub proof fn lemma_drawn_stays(corners: Seq<(usize, usize)>, upto: int, later: int, x: int, y: int)
    requires
        upto <= later,
        drawn(corners, upto, x, y),
    ensures
        drawn(corners, later, x, y),
    decreases later - upto,
{
    if upto < later {
        lemma_drawn_stays(corners, upto, later - 1, x, y);
    }
}

/// Marks the cells on the edges of the loop.
pub fn draw(corners: &Vec<(usize, usize)>, w: usize, h: usize) -> (grid: Vec<Vec<bool>>)
    ensures
        cells(grid@) == edge_marks(corners@, w as int, h as int),
{
    let ghost goal = edge_marks(corners@, w as int, h as int);
    let mut grid: Vec<Vec<bool>> = Vec::new();
    let mut x: usize = 0;
    while x < w
        invariant
            x <= w,
            grid@.len() == x,
            goal == edge_marks(corners@, w as int, h as int),
            forall|i: int| 0 <= i < x ==> (#[trigger] grid@[i])@ == goal[i],
        decreases w - x,
    {
        let mut row: Vec<bool> = Vec::new();
        let mut y: usize = 0;
        while y < h
            invariant
                y <= h,
                x < w,
                row@.len() == y,
                goal == edge_marks(corners@, w as int, h as int),
                forall|j: int| 0 <= j < y ==> #[trigger] row@[j] == goal[x as int][j],
            decreases h - y,
        {
            row.push(is_drawn(corners, x, y));
            y += 1;
        }
        assert(row@ =~= goal[x as int]);
        grid.push(row);
        x += 1;
    }
    assert(cells(grid@) =~= goal);
    grid
}

// ---------------------------------------------------------------------------
// What lies outside the loop
// ---------------------------------------------------------------------------

/// The cells known to lie outside the loop, and the cells from which the
/// search goes on.
pub struct Flood {
    /// The cells known to lie outside the loop.
    pub outside: Seq<Seq<bool>>,
    /// The cells that the last round has come to.
    pub fringe: Seq<Seq<bool>>,
}

/// The grid without any cell.
pub open spec fn nothing(w: int, h: int) -> Seq<Seq<bool>> {
    table(w, h, |x: int, y: int| false)
}

/// The cells at the rim of the grid that are not marked.
pub open spec fn rim(marks: Seq<Seq<bool>>) -> Seq<Seq<bool>> {
    let w = marks.len() as int;
    let h = marks[0].len() as int;
    table(
        w,
        h,
        |x: int, y: int| (x == 0 || x == w - 1 || y == 0 || y == h - 1) && !marks[x][y],
    )
}

/// The cells that the next round comes to: those next to a cell of the
/// fringe that are neither marked nor known to lie outside.
pub open spec fn next_fringe(marks: Seq<Seq<bool>>, flood: Flood) -> Seq<Seq<bool>> {
    table(
        marks.len() as int,
        marks[0].len() as int,
        |x: int, y: int| !marks[x][y] && !flood.outside[x][y] && adjacent(flood.fringe, x, y) > 0,
    )
}

/// The cells of either grid.
pub open spec fn merged(first: Seq<Seq<bool>>, second: Seq<Seq<bool>>) -> Seq<Seq<bool>> {
    table(
        first.len() as int,
        first[0].len() as int,
        |x: int, y: int| first[x][y] || second[x][y],
    )
}

/// Whether a grid holds no cell.
pub open spec fn blank(grid: Seq<Seq<bool>>) -> bool {
    forall|x: int, y: int| 0 <= x < grid.len() && 0 <= y < grid[x].len() ==> !#[trigger] grid[x][y]
}

/// The cells known to lie outside the loop when the search has come to
/// rest: when a round comes to no cell, the search ends, and the cells
/// of the last fringe are not taken in. There are none if the search has not
/// come to rest after `rounds` rounds.
pub open spec fn flooded(marks: Seq<Seq<bool>>, flood: Flood, rounds: nat) -> Option<
    Seq<Seq<bool>>,
>
    decreases rounds,
{
    if rounds == 0 {
        None
    } else {
        let next = next_fringe(marks, flood);
        if blank(next) {
            Some(flood.outside)
        } else {
            flooded(
                marks,
                Flood { outside: merged(flood.outside, flood.fringe), fringe: next },
                (rounds - 1) as nat,
            )
        }
    }
}

/// The marked cells and the cells not known to lie outside the loop.
pub open spec fn filled(marks: Seq<Seq<bool>>, outside: Seq<Seq<bool>>) -> Seq<Seq<bool>> {
    table(
        marks.len() as int,
        marks[0].len() as int,
        |x: int, y: int| marks[x][y] || !outside[x][y],
    )
}

/// The grid in which the edges of the loop and all that they enclose are
/// marked. There is none if the grid has more cells than the rounds of the
/// search can be counted for, or if the search does not come to rest within
/// two rounds for every cell and two more.
pub open spec fn spec_render(corners: Seq<(usize, usize)>, w: int, h: int) -> Option<
    Seq<Seq<bool>>,
> {
    let marks = edge_marks(corners, w, h);
    if 2 * w * h + 2 > usize::MAX {
        None
    } else {
        match flooded(
            marks,
            Flood { outside: nothing(w, h), fringe: rim(marks) },
            (2 * w * h + 2) as nat,
        ) {
            Some(outside) => Some(filled(marks, outside)),
            None => None,
        }
    }
}

/// What kind of grid is made of up to three others.
pub enum Recipe {
    /// The grid without any cell.
    Nothing,
    /// The cells at the rim of the first grid that are not marked in it.
    Rim,
    /// The cells that the next round of the search comes to.
    NextFringe,
    /// The cells of the second or the third grid.
    Merged,
    /// The cells of the first grid and those not in the second.
    Filled,
}

/// What a recipe makes of three grids.
pub open spec fn made(
    recipe: Recipe,
    marks: Seq<Seq<bool>>,
    outside: Seq<Seq<bool>>,
    fringe: Seq<Seq<bool>>,
) -> Seq<Seq<bool>> {
    match recipe {
        Recipe::Nothing => nothing(marks.len() as int, marks[0].len() as int),
        Recipe::Rim => rim(marks),
        Recipe::NextFringe => next_fringe(marks, Flood { outside, fringe }),
        Recipe::Merged => merged(outside, fringe),
        Recipe::Filled => filled(marks, outside),
    }
}

/// Makes a grid of three others, cell by cell.
pub fn make(
    recipe: &Recipe,
    marks: &Vec<Vec<bool>>,
    outside: &Vec<Vec<bool>>,
    fringe: &Vec<Vec<bool>>,
) -> (grid: Vec<Vec<bool>>)
    requires
        marks@.len() > 0,
        shaped(cells(marks@), marks@.len() as int, marks@[0]@.len() as int),
        shaped(cells(outside@), marks@.len() as int, marks@[0]@.len() as int),
        shaped(cells(fringe@), marks@.len() as int, marks@[0]@.len() as int),
    ensures
        cells(grid@) == made(*recipe, cells(marks@), cells(outside@), cells(fringe@)),
        shaped(cells(grid@), marks@.len() as int, marks@[0]@.len() as int),
{
    let w = marks.len();
    let h = marks[0].len();
    let ghost goal = made(*recipe, cells(marks@), cells(outside@), cells(fringe@));
    assert(cells(marks@)[0] == marks@[0]@);
    assert(cells(fringe@)[0].len() == h);
    assert(well_formed(cells(fringe@)));
    let mut grid: Vec<Vec<bool>> = Vec::new();
    let mut x: usize = 0;
    while x < w
        invariant
            x <= w,
            0 < w,
            w == marks@.len(),
            h == marks@[0]@.len(),
            h == cells(marks@)[0].len(),
            h == cells(fringe@)[0].len(),
            shaped(cells(marks@), w as int, h as int),
            shaped(cells(outside@), w as int, h as int),
            shaped(cells(fringe@), w as int, h as int),
            well_formed(cells(fringe@)),
            grid@.len() == x,
            goal == made(*recipe, cells(marks@), cells(outside@), cells(fringe@)),
            forall|i: int| 0 <= i < x ==> (#[trigger] grid@[i])@ == goal[i],
        decreases w - x,
    {
        assert(cells(marks@)[x as int] == marks@[x as int]@);
        assert(cells(outside@)[x as int] == outside@[x as int]@);
        assert(cells(fringe@)[x as int] == fringe@[x as int]@);
        let mut row: Vec<bool> = Vec::new();
        let mut y: usize = 0;
        while y < h
            invariant
                y <= h,
                x < w,
                w == marks@.len(),
                h == marks@[0]@.len(),
                h == cells(marks@)[0].len(),
                h == cells(fringe@)[0].len(),
                shaped(cells(marks@), w as int, h as int),
                shaped(cells(outside@), w as int, h as int),
                shaped(cells(fringe@), w as int, h as int),
                cells(marks@)[x as int] == marks@[x as int]@,
                cells(outside@)[x as int] == outside@[x as int]@,
                cells(fringe@)[x as int] == fringe@[x as int]@,
                well_formed(cells(fringe@)),
                row@.len() == y,
                goal == made(*recipe, cells(marks@), cells(outside@), cells(fringe@)),
                forall|j: int| 0 <= j < y ==> #[trigger] row@[j] == goal[x as int][j],
            decreases h - y,
        {
            let cell: bool = match recipe {
                Recipe::Nothing => false,
                Recipe::Rim => (x == 0 || x == w - 1 || y == 0 || y == h - 1) && !marks[x][y],
                Recipe::NextFringe => !marks[x][y] && !outside[x][y] && count_adjacent(
                    fringe,
                    x,
                    y,
                ) > 0,
                Recipe::Merged => outside[x][y] || fringe[x][y],
                Recipe::Filled => marks[x][y] || !outside[x][y],
            };
            row.push(cell);
            y += 1;
        }
        assert(row@ =~= goal[x as int]);
        grid.push(row);
        x += 1;
    }
    assert(cells(grid@) =~= goal);
    assert forall|i: int| 0 <= i < w implies (#[trigger] cells(grid@)[i]).len() == h by {
        assert(goal[i].len() == h);
    }
    grid
}

/// Tests whether a grid holds no cell.
pub fn is_blank(grid: &Vec<Vec<bool>>) -> (empty: bool)
    ensures
        empty == blank(cells(grid@)),
{
    let mut x: usize = 0;
    while x < grid.len()
        invariant
            x <= grid@.len(),
            forall|i: int, j: int|
                0 <= i < x && 0 <= j < cells(grid@)[i].len() ==> !#[trigger] cells(grid@)[i][j],
        decreases grid@.len() - x,
    {
        let row = &grid[x];
        assert(cells(grid@)[x as int] == row@);
        let mut y: usize = 0;
        while y < row.len()
            invariant
                y <= row@.len(),
                x < grid@.len(),
                cells(grid@)[x as int] == row@,
                forall|i: int, j: int|
                    0 <= i < x && 0 <= j < cells(grid@)[i].len() ==> !#[trigger] cells(
                        grid@,
                    )[i][j],
                forall|j: int| 0 <= j < y ==> !#[trigger] row@[j],
            decreases row@.len() - y,
        {
            if row[y] {
                assert(cells(grid@)[x as int][y as int]);
                return false;
            }
            y += 1;
        }
        x += 1;
    }
    true
}

/// How many rounds the search may take on a grid: two for every cell and
/// two more, if that can be counted.
pub fn rounds_for(w: usize, h: usize) -> (rounds: Option<usize>)
    ensures
        2 * w * h + 2 <= usize::MAX ==> rounds == Some((2 * w * h + 2) as usize),
        2 * w * h + 2 > usize::MAX ==> rounds is None,
{
    assert(2 * w * h == (2 * w) * h) by (nonlinear_arith);
    assert(2 * w > usize::MAX && h > 0 ==> 2 * w * h > usize::MAX) by (nonlinear_arith);
    if h == 0 {
        return Some(2);
    }
    match w.checked_mul(2) {
        Some(twice) => match twice.checked_mul(h) {
            Some(cells) => cells.checked_add(2),
            None => None,
        },
        None => None,
    }
}

/// Marks the edges of the loop and all that they enclose, on a grid whose
/// last column is `xmax` and whose last row is `ymax`.
pub fn render_grid(remapped_points: &Vec<(usize, usize)>, xmax: usize, ymax: usize) -> (grid:
    Option<Vec<Vec<bool>>>)
    requires
        xmax < usize::MAX,
        ymax < usize::MAX,
    ensures
        grid matches Some(marked) ==> Some(cells(marked@)) == spec_render(
            remapped_points@,
            xmax + 1,
            ymax + 1,
        ) && shaped(cells(marked@), xmax + 1, ymax + 1),
        grid is None ==> spec_render(remapped_points@, xmax + 1, ymax + 1) is None,
{
    let w = xmax + 1;
    let h = ymax + 1;
    let marks = draw(remapped_points, w, h);
    assert(marks@.len() == w);
    assert(cells(marks@)[0] == marks@[0]@);
    let mut rounds: usize = match rounds_for(w, h) {
        Some(rounds) => rounds,
        None => {
            return None;
        },
    };
    let mut outside = make(&Recipe::Nothing, &marks, &marks, &marks);
    let mut fringe = make(&Recipe::Rim, &marks, &marks, &marks);
    let ghost whole = flooded(
        cells(marks@),
        Flood { outside: cells(outside@), fringe: cells(fringe@) },
        rounds as nat,
    );
    while rounds > 0
        invariant
            0 < w,
            w == marks@.len(),
            h == marks@[0]@.len(),
            shaped(cells(marks@), w as int, h as int),
            shaped(cells(outside@), w as int, h as int),
            shaped(cells(fringe@), w as int, h as int),
            w == xmax + 1,
            h == ymax + 1,
            2 * w * h + 2 <= usize::MAX,
            cells(marks@) == edge_marks(remapped_points@, w as int, h as int),
            whole == flooded(
                cells(marks@),
                Flood { outside: nothing(w as int, h as int), fringe: rim(cells(marks@)) },
                (2 * w * h + 2) as nat,
            ),
            flooded(
                cells(marks@),
                Flood { outside: cells(outside@), fringe: cells(fringe@) },
                rounds as nat,
            ) == whole,
        decreases rounds,
    {
        let next = make(&Recipe::NextFringe, &marks, &outside, &fringe);
        if is_blank(&next) {
            let grid = make(&Recipe::Filled, &marks, &outside, &fringe);
            return Some(grid);
        }
        assert(cells(outside@)[0] == outside@[0]@);
        outside = make(&Recipe::Merged, &outside, &outside, &fringe);
        fringe = next;
        rounds -= 1;
    }
    None
}

// ---------------------------------------------------------------------------
// Rectangles within the loop
// ---------------------------------------------------------------------------

/// Whether every cell of the rectangle with the corners `a` and `b` is
/// marked.
pub open spec fn covered(grid: Seq<Seq<bool>>, a: (usize, usize), b: (usize, usize)) -> bool {
    forall|x: int, y: int|
        lo(a.0 as int, b.0 as int) <= x <= hi(a.0 as int, b.0 as int) && lo(a.1 as int, b.1 as int)
            <= y <= hi(a.1 as int, b.1 as int) ==> #[trigger] grid[x][y]
}

/// Tests whether every cell of the rectangle with the corners `a` and `b`
/// is marked.
pub fn is_covered(grid: &Vec<Vec<bool>>, a: (usize, usize), b: (usize, usize)) -> (whole: bool)
    requires
        a.0 < grid@.len(),
        b.0 < grid@.len(),
        forall|x: int| 0 <= x < grid@.len() ==> a.1 < (#[trigger] grid@[x])@.len(),
        forall|x: int| 0 <= x < grid@.len() ==> b.1 < (#[trigger] grid@[x])@.len(),
    ensures
        whole == covered(cells(grid@), a, b),
{
    let xmin = if a.0 <= b.0 {
        a.0
    } else {
        b.0
    };
    let xmax = if a.0 <= b.0 {
        b.0
    } else {
        a.0
    };
    let ymin = if a.1 <= b.1 {
        a.1
    } else {
        b.1
    };
    let ymax = if a.1 <= b.1 {
        b.1
    } else {
        a.1
    };
    let columns = grid.len();
    let height = grid[0].len();
    let mut x: usize = xmin;
    while x <= xmax
        invariant
            xmin <= x <= xmax + 1,
            xmax < grid@.len(),
            xmax < columns,
            ymax < height,
            xmin == lo(a.0 as int, b.0 as int),
            xmax == hi(a.0 as int, b.0 as int),
            ymin == lo(a.1 as int, b.1 as int),
            ymax == hi(a.1 as int, b.1 as int),
            forall|i: int| 0 <= i < grid@.len() ==> ymax < (#[trigger] grid@[i])@.len(),
            forall|i: int, j: int|
                xmin <= i < x && ymin <= j <= ymax ==> #[trigger] cells(grid@)[i][j],
        decreases xmax + 1 - x,
    {
        let row = &grid[x];
        assert(cells(grid@)[x as int] == row@);
        let mut y: usize = ymin;
        while y <= ymax
            invariant
                ymin <= y <= ymax + 1,
                ymax < row@.len(),
                ymax < height,
                xmax < columns,
                x < grid@.len(),
                xmin <= x <= xmax,
                cells(grid@)[x as int] == row@,
                xmin == lo(a.0 as int, b.0 as int),
                xmax == hi(a.0 as int, b.0 as int),
                ymin == lo(a.1 as int, b.1 as int),
                ymax == hi(a.1 as int, b.1 as int),
                forall|j: int| ymin <= j < y ==> #[trigger] row@[j],
            decreases ymax + 1 - y,
        {
            if !row[y] {
                assert(!cells(grid@)[x as int][y as int]);
                return false;
            }
            y += 1;
        }
        x += 1;
    }
    true
}

/// The first coordinates of the tiles.
pub open spec fn firsts(points: Seq<(i64, i64)>) -> Seq<i64> {
    Seq::new(points.len(), |i: int| points[i].0)
}

/// The second coordinates of the tiles.
pub open spec fn seconds(points: Seq<(i64, i64)>) -> Seq<i64> {
    Seq::new(points.len(), |i: int| points[i].1)
}

/// The tiles with every coordinate replaced by its rank among the
/// coordinates of its kind.
pub open spec fn ranked(points: Seq<(i64, i64)>) -> Seq<(usize, usize)> {
    Seq::new(
        points.len(),
        |i: int|
            (
                rank_of(spec_ranks(firsts(points)), points[i].0) as usize,
                rank_of(spec_ranks(seconds(points)), points[i].1) as usize,
            ),
    )
}

/// The pairs of tiles whose rectangle is marked all over.
pub open spec fn within(grid: Seq<Seq<bool>>, corners: Seq<(usize, usize)>) -> spec_fn(
    int,
    int,
) -> bool {
    |i: int, j: int| covered(grid, corners[i], corners[j])
}

/// The second answer: the largest area of a rectangle with two of the
/// tiles for opposite corners that lies within the loop of the tiles, or
/// nothing if no two tiles have such a rectangle. The loop is drawn, and
/// the rectangles are tested, on the grid of the ranks of the coordinates.
/// There is no answer if the text does not describe tiles or describes none,
/// if the grid cannot be filled, or if the area of a rectangle within the loop
/// cannot be computed.
pub open spec fn spec_answer_2(text: Seq<u8>) -> Option<i64> {
    match spec_parse_text(text) {
        Some(points) => if points.len() == 0 {
            None
        } else {
            let corners = ranked(points);
            match spec_render(
                corners,
                spec_ranks(firsts(points)).len() as int,
                spec_ranks(seconds(points)).len() as int,
            ) {
                Some(grid) => best_upto(points, within(grid, corners), points.len() as int),
                None => None,
            }
        },
        None => None,
    }
}

/// Replaces every coordinate by its rank among the coordinates of its
/// kind, and says how many ranks there are of either kind.
pub fn remap_points(points: &Vec<(i64, i64)>) -> (remap: (Vec<(usize, usize)>, usize, usize))
    ensures
        remap.0@ == ranked(points@),
        remap.1 == spec_ranks(firsts(points@)).len(),
        remap.2 == spec_ranks(seconds(points@)).len(),
        forall|i: int| 0 <= i < remap.0@.len() ==> (#[trigger] remap.0@[i]).0 < remap.1,
        forall|i: int| 0 <= i < remap.0@.len() ==> (#[trigger] remap.0@[i]).1 < remap.2,
        points@.len() > 0 ==> remap.1 > 0 && remap.2 > 0,
{
    broadcast use group_hash_axioms;

    let n = points.len();
    let mut xcoords: Vec<i64> = Vec::new();
    let mut ycoords: Vec<i64> = Vec::new();
    let mut i: usize = 0;
    while i < n
        invariant
            i <= n,
            n == points@.len(),
            xcoords@ == firsts(points@).take(i as int),
            ycoords@ == seconds(points@).take(i as int),
        decreases n - i,
    {
        xcoords.push(points[i].0);
        ycoords.push(points[i].1);
        assert(xcoords@ =~= firsts(points@).take(i + 1));
        assert(ycoords@ =~= seconds(points@).take(i + 1));
        i += 1;
    }
    assert(xcoords@ =~= firsts(points@));
    assert(ycoords@ =~= seconds(points@));
    let (xmap, xrev) = remap_numbers(&xcoords);
    let (ymap, yrev) = remap_numbers(&ycoords);
    let mut remapped: Vec<(usize, usize)> = Vec::new();
    i = 0;
    while i < n
        invariant
            i <= n,
            n == points@.len(),
            xcoords@ == firsts(points@),
            ycoords@ == seconds(points@),
            xrev@ == spec_ranks(xcoords@),
            yrev@ == spec_ranks(ycoords@),
            is_ranking(xcoords@, xrev@),
            is_ranking(ycoords@, yrev@),
            forall|number: i64| #[trigger] xmap@.contains_key(number) <==> xrev@.contains(number),
            forall|number: i64| #[trigger] ymap@.contains_key(number) <==> yrev@.contains(number),
            forall|k: int|
                0 <= k < xrev@.len() ==> xmap@.contains_key(#[trigger] xrev@[k])
                    && xmap@[xrev@[k]] == k,
            forall|k: int|
                0 <= k < yrev@.len() ==> ymap@.contains_key(#[trigger] yrev@[k])
                    && ymap@[yrev@[k]] == k,
            remapped@.len() == i,
            forall|k: int| 0 <= k < i ==> remapped@[k] == ranked(points@)[k],
            forall|k: int| 0 <= k < i ==> (#[trigger] remapped@[k]).0 < xrev@.len(),
            forall|k: int| 0 <= k < i ==> (#[trigger] remapped@[k]).1 < yrev@.len(),
        decreases n - i,
    {
        let (x, y) = points[i];
        proof {
            assert(xcoords@[i as int] == x);
            assert(ycoords@[i as int] == y);
            assert(xrev@.contains(xcoords@[i as int]));
            assert(yrev@.contains(ycoords@[i as int]));
            let kx = choose|k: int| 0 <= k < xrev@.len() && xrev@[k] == x;
            let ky = choose|k: int| 0 <= k < yrev@.len() && yrev@[k] == y;
            lemma_rank(xrev@, kx);
            lemma_rank(yrev@, ky);
            assert(xmap@.contains_key(xrev@[kx]));
            assert(ymap@.contains_key(yrev@[ky]));
        }
        let rx: usize = match xmap.get(&x) {
            Some(rank) => *rank,
            None => 0,
        };
        let ry: usize = match ymap.get(&y) {
            Some(rank) => *rank,
            None => 0,
        };
        remapped.push((rx, ry));
        i += 1;
    }
    assert(remapped@ =~= ranked(points@));
    proof {
        if n > 0 {
            assert(xrev@.contains(xcoords@[0]));
            assert(yrev@.contains(ycoords@[0]));
        }
    }
    (remapped, xrev.len(), yrev.len())
}

/// Finds the largest rectangle with two of the tiles for opposite corners
/// that lies within the loop of the tiles.
pub fn try_parse_2(text: &[u8]) -> (answer: Option<i64>)
    ensures
        answer == spec_answer_2(text@),
{
    let points = match parse_text(text) {
        Some(points) => points,
        None => {
            return None;
        },
    };
    let n = points.len();
    if n == 0 {
        return None;
    }
    let (remapped_points, w, h) = remap_points(&points);
    let mark_grid = match render_grid(&remapped_points, w - 1, h - 1) {
        Some(grid) => grid,
        None => {
            return None;
        },
    };
    let ghost allowed = within(cells(mark_grid@), remapped_points@);
    let mut best: i64 = 0;
    let mut i: usize = 0;
    while i < n
        invariant
            i <= n,
            n == points@.len(),
            n == remapped_points@.len(),
            Some(points@) == spec_parse_text(text@),
            remapped_points@ == ranked(points@),
            w == spec_ranks(firsts(points@)).len(),
            h == spec_ranks(seconds(points@)).len(),
            0 < w,
            0 < h,
            Some(cells(mark_grid@)) == spec_render(remapped_points@, w as int, h as int),
            shaped(cells(mark_grid@), w as int, h as int),
            forall|k: int| 0 <= k < n ==> (#[trigger] remapped_points@[k]).0 < w,
            forall|k: int| 0 <= k < n ==> (#[trigger] remapped_points@[k]).1 < h,
            allowed == within(cells(mark_grid@), remapped_points@),
            best_upto(points@, allowed, i as int) == Some(best),
        decreases n - i,
    {
        let ghost start = best;
        let mut j: usize = i + 1;
        while j < n
            invariant
                i < n,
                i + 1 <= j <= n,
                n == points@.len(),
                n == remapped_points@.len(),
                Some(points@) == spec_parse_text(text@),
                remapped_points@ == ranked(points@),
                w == spec_ranks(firsts(points@)).len(),
                h == spec_ranks(seconds(points@)).len(),
                0 < w,
                0 < h,
                Some(cells(mark_grid@)) == spec_render(remapped_points@, w as int, h as int),
                shaped(cells(mark_grid@), w as int, h as int),
                forall|k: int| 0 <= k < n ==> (#[trigger] remapped_points@[k]).0 < w,
                forall|k: int| 0 <= k < n ==> (#[trigger] remapped_points@[k]).1 < h,
                allowed == within(cells(mark_grid@), remapped_points@),
                best_upto(points@, allowed, i as int) == Some(start),
                best_with(points@, allowed, start, i as int, j as int) == Some(best),
            decreases n - j,
        {
            proof {
                assert(remapped_points@[i as int].0 < w);
                assert(remapped_points@[j as int].0 < w);
                assert(remapped_points@[i as int].1 < h);
                assert(remapped_points@[j as int].1 < h);
                assert forall|x: int| 0 <= x < mark_grid@.len() implies (#[trigger] mark_grid@[x])@.len()
                    == h by {
                    assert(cells(mark_grid@)[x].len() == h);
                }
            }
            let fits: bool = is_covered(&mark_grid, remapped_points[i], remapped_points[j]);
            assert(fits == allowed(i as int, j as int));
            if fits {
                match try_area(points[i], points[j]) {
                    Some(size) => {
                        if size > best {
                            best = size;
                        }
                    },
                    None => {
                        proof {
                            assert(best_with(points@, allowed, start, i as int, j + 1) is None);
                            lemma_best_with_fails(points@, allowed, start, i as int, j + 1, n as int);
                            assert(best_upto(points@, allowed, i + 1) is None);
                            lemma_best_upto_fails(points@, allowed, i + 1, n as int);
                        }
                        return None;
                    },
                }
            }
            j += 1;
        }
        i += 1;
    }
    Some(best)
}

/// The largest area of a rectangle with two of the tiles for opposite
/// corners that lies within the loop of the tiles.
pub fn parse_2(text: &str) -> (answer: i64)
    requires
        spec_answer_2(text.spec_bytes()) is Some,
    ensures
        Some(answer) == spec_answer_2(text.spec_bytes()),
{
    try_parse_2(text.as_bytes()).unwrap()
}

} // verus!

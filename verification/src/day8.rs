//! Junction boxes in space, linked pair by pair, the closest pair first.
//!
//! A line of the text holds the three coordinates of a box, with commas
//! between them. Pairs of boxes are taken in the order of their distance,
//! and among pairs at one distance in the order of their places in the text.
//! Every box starts as a circuit of its own; to link two boxes is to make one
//! circuit of the circuits they belong to.

use crate::text::{lines, nonempty_lines, parse_i64_list, spec_parse_i64_fields, split, views};
use crate::tuples::collect_triple;
use vstd::prelude::*;
use vstd::string::StringSliceAdditionalSpecFns;

verus! {

/// The byte that stands between the coordinates of a box.
pub const COMMA: u8 = 44;

/// The box that a line describes, if it holds three numbers.
pub open spec fn spec_parse_point(line: Seq<u8>) -> Option<(i64, i64, i64)> {
    match spec_parse_i64_fields(split(line, COMMA)) {
        Some(numbers) => if numbers.len() == 3 {
            Some((numbers[0], numbers[1], numbers[2]))
        } else {
            None
        },
        None => None,
    }
}

/// The boxes that a text describes, one for every line that is not empty.
/// There are none if one of the lines does not describe a box.
pub open spec fn spec_parse_text(text: Seq<u8>) -> Option<Seq<(i64, i64, i64)>> {
    let rows = nonempty_lines(text);
    if forall|i: int| 0 <= i < rows.len() ==> spec_parse_point(#[trigger] rows[i]) is Some {
        Some(Seq::new(rows.len(), |i: int| spec_parse_point(rows[i])->0))
    } else {
        None
    }
}

/// Reads the box that a line describes.
pub fn parse_point(line: &[u8]) -> (point: Option<(i64, i64, i64)>)
    ensures
        point == spec_parse_point(line@),
{
    match parse_i64_list(line, COMMA) {
        Some(numbers) => collect_triple(numbers),
        None => None,
    }
}

/// Reads the boxes that a text describes.
pub fn parse_text(text: &[u8]) -> (points: Option<Vec<(i64, i64, i64)>>)
    ensures
        points is Some <==> spec_parse_text(text@) is Some,
        points matches Some(read) ==> Some(read@) == spec_parse_text(text@),
{
    let found = lines(text);
    let ghost rows = nonempty_lines(text@);
    let mut points: Vec<(i64, i64, i64)> = Vec::new();
    let mut i: usize = 0;
    while i < found.len()
        invariant
            i <= found@.len(),
            views(found@) == rows,
            rows == nonempty_lines(text@),
            points@.len() == i,
            forall|k: int| 0 <= k < i ==> spec_parse_point(#[trigger] rows[k]) == Some(points@[k]),
        decreases found@.len() - i,
    {
        assert(rows[i as int] == found@[i as int]@);
        match parse_point(found[i]) {
            Some(point) => {
                points.push(point);
            },
            None => {
                assert(spec_parse_point(rows[i as int]) is None);
                return None;
            },
        }
        i += 1;
    }
    assert(points@ =~= spec_parse_text(text@)->0);
    Some(points)
}

// ---------------------------------------------------------------------------
// Distances
// ---------------------------------------------------------------------------

/// The square of the distance between two boxes.
pub open spec fn square_distance(a: (i64, i64, i64), b: (i64, i64, i64)) -> int {
    (a.0 - b.0) * (a.0 - b.0) + (a.1 - b.1) * (a.1 - b.1) + (a.2 - b.2) * (a.2 - b.2)
}

/// Whether a number can be held in 64 bits.
pub open spec fn in_range(value: int) -> bool {
    i64::MIN <= value <= i64::MAX
}

/// Whether the square of the distance between two boxes can be computed in
/// 64 bits.
pub open spec fn measurable(a: (i64, i64, i64), b: (i64, i64, i64)) -> bool {
    &&& in_range(a.0 - b.0)
    &&& in_range(a.1 - b.1)
    &&& in_range(a.2 - b.2)
    &&& square_distance(a, b) <= i64::MAX
}

/// The square of a difference of two coordinates, if it can be held.
fn square_of_difference(a: i64, b: i64) -> (square: Option<i64>)
    ensures
        square matches Some(value) ==> value == (a - b) * (a - b) && in_range(a - b),
        square is None ==> !in_range(a - b) || (a - b) * (a - b) > i64::MAX,
        0 <= (a - b) * (a - b),
{
    assert(0 <= (a - b) * (a - b)) by (nonlinear_arith);
    match a.checked_sub(b) {
        Some(difference) => difference.checked_mul(difference),
        None => None,
    }
}

/// The square of the distance between two boxes, if it can be computed in
/// 64 bits.
pub fn try_distance(a: (i64, i64, i64), b: (i64, i64, i64)) -> (dist: Option<i64>)
    ensures
        measurable(a, b) ==> dist == Some(square_distance(a, b) as i64),
        !measurable(a, b) ==> dist is None,
{
    let x = square_of_difference(a.0, b.0);
    let y = square_of_difference(a.1, b.1);
    let z = square_of_difference(a.2, b.2);
    match (x, y, z) {
        (Some(dx), Some(dy), Some(dz)) => match dx.checked_add(dy) {
            Some(both) => both.checked_add(dz),
            None => None,
        },
        _ => None,
    }
}

/// The square of the distance between two boxes.
pub fn distance(a: (i64, i64, i64), b: (i64, i64, i64)) -> (dist: i64)
    requires
        measurable(a, b),
    ensures
        dist == square_distance(a, b),
{
    assert(0 <= (a.0 - b.0) * (a.0 - b.0)) by (nonlinear_arith);
    assert(0 <= (a.1 - b.1) * (a.1 - b.1)) by (nonlinear_arith);
    assert(0 <= (a.2 - b.2) * (a.2 - b.2)) by (nonlinear_arith);
    try_distance(a, b).unwrap()
}

/// Whether the distance between any two of the boxes can be computed.
pub open spec fn all_measurable(points: Seq<(i64, i64, i64)>) -> bool {
    forall|i: int, j: int|
        0 <= i < j < points.len() ==> measurable(#[trigger] points[i], #[trigger] points[j])
}

/// Tests whether the distance between any two of the boxes can be computed.
pub fn is_measurable(points: &Vec<(i64, i64, i64)>) -> (fine: bool)
    ensures
        fine == all_measurable(points@),
{
    let n = points.len();
    let mut i: usize = 0;
    while i < n
        invariant
            i <= n,
            n == points@.len(),
            forall|a: int, b: int|
                0 <= a < b < n && a < i ==> measurable(#[trigger] points@[a], #[trigger] points@[b]),
        decreases n - i,
    {
        let mut j: usize = i + 1;
        while j < n
            invariant
                i < n,
                i + 1 <= j <= n,
                n == points@.len(),
                forall|a: int, b: int|
                    0 <= a < b < n && a < i ==> measurable(
                        #[trigger] points@[a],
                        #[trigger] points@[b],
                    ),
                forall|b: int| i < b < j ==> measurable(points@[i as int], #[trigger] points@[b]),
            decreases n - j,
        {
            if try_distance(points[i], points[j]).is_none() {
                assert(!measurable(points@[i as int], points@[j as int]));
                return false;
            }
            j += 1;
        }
        i += 1;
    }
    true
}

// ---------------------------------------------------------------------------
// Pairs in the order of their distance
// ---------------------------------------------------------------------------

/// Two boxes, by their places in the text, and the square of the distance
/// between them.
#[derive(Debug, Clone, Copy)]
pub struct Pair {
    /// The square of the distance between the two boxes.
    pub dist: i64,
    /// The place of the first box.
    pub i: usize,
    /// The place of the second box, after that of the first.
    pub j: usize,
}

/// The order in which pairs are taken: by distance, then by the place of the
/// first box, then by that of the second.
pub open spec fn before(a: Pair, b: Pair) -> bool {
    a.dist < b.dist || (a.dist == b.dist && (a.i < b.i || (a.i == b.i && a.j < b.j)))
}

/// The pair of the boxes at two places.
pub open spec fn pair_at(points: Seq<(i64, i64, i64)>, i: int, j: int) -> Pair {
    Pair { dist: square_distance(points[i], points[j]) as i64, i: i as usize, j: j as usize }
}

/// Whether `pair` is a pair of two of the boxes.
pub open spec fn is_pair(points: Seq<(i64, i64, i64)>, pair: Pair) -> bool {
    pair.i < pair.j < points.len() && pair == pair_at(points, pair.i as int, pair.j as int)
}

/// Whether `pair` comes after the pair that was taken last, if any was.
pub open spec fn follows(last: Option<Pair>, pair: Pair) -> bool {
    last matches Some(taken) ==> before(taken, pair)
}

/// Whether `pair` is the first of the pairs that come after the pair that
/// was taken last.
pub open spec fn is_closest_after(points: Seq<(i64, i64, i64)>, last: Option<Pair>, pair: Pair) -> bool {
    &&& is_pair(points, pair)
    &&& follows(last, pair)
    &&& forall|i: int, j: int|
        0 <= i < j < points.len() && follows(last, #[trigger] pair_at(points, i, j)) ==> !before(
            pair_at(points, i, j),
            pair,
        )
}

/// The first of the pairs that come after the pair that was taken last, if
/// any pair is left.
pub open spec fn spec_closest_after(points: Seq<(i64, i64, i64)>, last: Option<Pair>) -> Option<
    Pair,
> {
    if exists|pair: Pair| is_closest_after(points, last, pair) {
        Some(choose|pair: Pair| is_closest_after(points, last, pair))
    } else {
        None
    }
}

/// Only one pair is the first of those that are left.
pub proof fn lemma_closest_unique(
    points: Seq<(i64, i64, i64)>,
    last: Option<Pair>,
    first: Pair,
    second: Pair,
)
    requires
        is_closest_after(points, last, first),
        is_closest_after(points, last, second),
    ensures
        first == second,
{
    assert(!before(pair_at(points, first.i as int, first.j as int), second));
    assert(!before(pair_at(points, second.i as int, second.j as int), first));
}

/// Whether one pair is taken before another.
pub fn comes_before(a: &Pair, b: &Pair) -> (earlier: bool)
    ensures
        earlier == before(*a, *b),
{
    a.dist < b.dist || (a.dist == b.dist && (a.i < b.i || (a.i == b.i && a.j < b.j)))
}

/// Finds the first of the pairs that come after the pair that was taken
/// last.
pub fn closest_after(points: &Vec<(i64, i64, i64)>, last: Option<Pair>) -> (next: Option<Pair>)
    requires
        all_measurable(points@),
    ensures
        next == spec_closest_after(points@, last),
{
    let n = points.len();
    let mut best: Option<Pair> = None;
    let mut i: usize = 0;
    while i < n
        invariant
            i <= n,
            n == points@.len(),
            all_measurable(points@),
            best matches Some(pair) ==> is_pair(points@, pair) && follows(last, pair),
            forall|a: int, b: int|
                0 <= a < b < n && a < i && follows(last, #[trigger] pair_at(points@, a, b))
                    ==> best is Some && !before(pair_at(points@, a, b), best->0),
        decreases n - i,
    {
        let mut j: usize = i + 1;
        while j < n
            invariant
                i < n,
                i + 1 <= j <= n,
                n == points@.len(),
                all_measurable(points@),
                best matches Some(pair) ==> is_pair(points@, pair) && follows(last, pair),
                forall|a: int, b: int|
                    0 <= a < b < n && a < i && follows(last, #[trigger] pair_at(points@, a, b))
                        ==> best is Some && !before(pair_at(points@, a, b), best->0),
                forall|b: int|
                    i < b < j && follows(last, #[trigger] pair_at(points@, i as int, b))
                        ==> best is Some && !before(pair_at(points@, i as int, b), best->0),
            decreases n - j,
        {
            assert(measurable(points@[i as int], points@[j as int]));
            let pair = Pair { dist: distance(points[i], points[j]), i, j };
            assert(pair == pair_at(points@, i as int, j as int));
            let after: bool = match &last {
                Some(taken) => comes_before(taken, &pair),
                None => true,
            };
            let better: bool = match &best {
                Some(found) => comes_before(&pair, found),
                None => true,
            };
            if after && better {
                best = Some(pair);
            }
            j += 1;
        }
        i += 1;
    }
    proof {
        match best {
            Some(pair) => {
                assert(is_closest_after(points@, last, pair));
                lemma_closest_unique(points@, last, pair, spec_closest_after(points@, last)->0);
            },
            None => {
                assert forall|pair: Pair| !is_closest_after(points@, last, pair) by {
                    if is_pair(points@, pair) && follows(last, pair) {
                        assert(follows(last, pair_at(points@, pair.i as int, pair.j as int)));
                    }
                }
            },
        }
    }
    best
}

// ---------------------------------------------------------------------------
// Circuits
// ---------------------------------------------------------------------------

/// The circuits after the boxes at `i` and `j` have been linked: the
/// circuits of the two become one, under the lower of their two numbers.
pub open spec fn joined(circuit: Seq<u32>, i: int, j: int) -> Seq<u32> {
    let low = if circuit[i] <= circuit[j] {
        circuit[i]
    } else {
        circuit[j]
    };
    Seq::new(
        circuit.len(),
        |k: int|
            if circuit[k] == circuit[i] || circuit[k] == circuit[j] {
                low
            } else {
                circuit[k]
            },
    )
}

/// Whether every box belongs to a circuit whose number is the place of a
/// box.
pub open spec fn labelled(circuit: Seq<u32>) -> bool {
    forall|k: int| 0 <= k < circuit.len() ==> #[trigger] circuit[k] < circuit.len()
}

/// Every box in a circuit of its own.
pub open spec fn apart(n: nat) -> Seq<u32> {
    Seq::new(n, |k: int| k as u32)
}

/// Links the boxes at `i` and `j`.
pub fn join(circuit: &mut Vec<u32>, i: usize, j: usize)
    requires
        i < old(circuit)@.len(),
        j < old(circuit)@.len(),
    ensures
        final(circuit)@ == joined(old(circuit)@, i as int, j as int),
        labelled(old(circuit)@) ==> labelled(final(circuit)@),
{
    let ci = circuit[i];
    let cj = circuit[j];
    if ci != cj {
        let ck = if ci <= cj {
            ci
        } else {
            cj
        };
        let mut k: usize = 0;
        while k < circuit.len()
            invariant
                k <= circuit@.len(),
                circuit@.len() == old(circuit)@.len(),
                i < circuit@.len(),
                j < circuit@.len(),
                ci == old(circuit)@[i as int],
                cj == old(circuit)@[j as int],
                ck == if ci <= cj {
                    ci
                } else {
                    cj
                },
                forall|m: int|
                    0 <= m < k ==> circuit@[m] == joined(old(circuit)@, i as int, j as int)[m],
                forall|m: int| k <= m < circuit@.len() ==> circuit@[m] == old(circuit)@[m],
            decreases circuit@.len() - k,
        {
            if circuit[k] == ci || circuit[k] == cj {
                circuit.set(k, ck);
            }
            k += 1;
        }
    }
    assert(circuit@ =~= joined(old(circuit)@, i as int, j as int));
}

/// The circuits that the boxes belong to, and the pair that was linked
/// last.
pub struct Links {
    /// The number of the circuit of every box.
    pub circuit: Seq<u32>,
    /// The pair that was linked last, if any was.
    pub last: Option<Pair>,
}

/// The circuits after the first `count` pairs have been linked. There are
/// none if the boxes have fewer pairs.
pub open spec fn links_after(points: Seq<(i64, i64, i64)>, count: nat) -> Option<Links>
    decreases count,
{
    if count == 0 {
        Some(Links { circuit: apart(points.len()), last: None })
    } else {
        match links_after(points, (count - 1) as nat) {
            Some(links) => match spec_closest_after(points, links.last) {
                Some(pair) => Some(
                    Links {
                        circuit: joined(links.circuit, pair.i as int, pair.j as int),
                        last: Some(pair),
                    },
                ),
                None => None,
            },
            None => None,
        }
    }
}

/// Once the pairs have run out, they stay so.
pub proof fn lemma_links_run_out(points: Seq<(i64, i64, i64)>, count: nat, later: nat)
    requires
        count <= later,
        links_after(points, count) is None,
    ensures
        links_after(points, later) is None,
    decreases later - count,
{
    if count < later {
        lemma_links_run_out(points, count, (later - 1) as nat);
    }
}

/// A pair that is the first of those left is a pair of two of the boxes.
pub proof fn lemma_closest_is_pair(points: Seq<(i64, i64, i64)>, last: Option<Pair>)
    requires
        spec_closest_after(points, last) is Some,
    ensures
        is_closest_after(points, last, spec_closest_after(points, last)->0),
{
}

/// How many of the first `upto` boxes belong to the circuit `label`.
pub open spec fn members(circuit: Seq<u32>, label: int, upto: int) -> int
    decreases upto,
{
    if upto <= 0 {
        0
    } else {
        members(circuit, label, upto - 1) + if circuit[upto - 1] == label {
            1int
        } else {
            0int
        }
    }
}

/// No more boxes belong to a circuit than there are.
pub proof fn lemma_members_bound(circuit: Seq<u32>, label: int, upto: int)
    requires
        0 <= upto,
    ensures
        0 <= members(circuit, label, upto) <= upto,
    decreases upto,
{
    if upto > 0 {
        lemma_members_bound(circuit, label, upto - 1);
    }
}

/// The sizes of the circuits, by their numbers.
pub open spec fn sizes_of(circuit: Seq<u32>) -> Seq<u32> {
    Seq::new(circuit.len(), |label: int| members(circuit, label, circuit.len() as int) as u32)
}

/// Counts the boxes of every circuit.
pub fn circuit_sizes(circuit: &Vec<u32>) -> (sizes: Vec<u32>)
    requires
        labelled(circuit@),
        circuit@.len() <= u32::MAX,
    ensures
        sizes@ == sizes_of(circuit@),
{
    let n = circuit.len();
    let mut sizes: Vec<u32> = Vec::new();
    let mut k: usize = 0;
    while k < n
        invariant
            k <= n,
            sizes@.len() == k,
            forall|label: int| 0 <= label < k ==> sizes@[label] == 0,
        decreases n - k,
    {
        sizes.push(0);
        k += 1;
    }
    k = 0;
    while k < n
        invariant
            k <= n,
            n == circuit@.len(),
            n <= u32::MAX,
            labelled(circuit@),
            sizes@.len() == n,
            forall|label: int| 0 <= label < n ==> sizes@[label] == members(circuit@, label, k as int),
        decreases n - k,
    {
        let label: usize = circuit[k] as usize;
        assert(circuit@[k as int] < circuit@.len());
        proof {
            lemma_members_bound(circuit@, label as int, k as int);
        }
        let more: u32 = sizes[label] + 1;
        sizes.set(label, more);
        k += 1;
    }
    assert forall|label: int| 0 <= label < n implies sizes@[label] == sizes_of(circuit@)[label] by {
        lemma_members_bound(circuit@, label, n as int);
    }
    assert(sizes@ =~= sizes_of(circuit@));
    sizes
}

/// The three largest so far with one more size taken in.
pub open spec fn taken_in(top: (u32, u32, u32), size: u32) -> (u32, u32, u32) {
    if size > top.0 {
        (size, top.0, top.1)
    } else if size > top.1 {
        (top.0, size, top.1)
    } else if size > top.2 {
        (top.0, top.1, size)
    } else {
        top
    }
}

/// The three largest of the first `upto` sizes, the largest first, with
/// nothing in the place of a size that is wanting.
pub open spec fn largest(sizes: Seq<u32>, upto: int) -> (u32, u32, u32)
    decreases upto,
{
    if upto <= 0 {
        (0u32, 0u32, 0u32)
    } else {
        taken_in(largest(sizes, upto - 1), sizes[upto - 1])
    }
}

/// The product of the three largest sizes, or of all sizes where they are
/// fewer than three. There is none if the product of the largest two, or of
/// all three, cannot be held in 32 bits.
pub open spec fn spec_product(sizes: Seq<u32>) -> Option<i64> {
    if sizes.len() == 0 {
        Some(1i64)
    } else if sizes.len() == 1 {
        Some(sizes[0] as i64)
    } else {
        let top = largest(sizes, sizes.len() as int);
        if sizes.len() == 2 {
            if top.0 * top.1 <= u32::MAX {
                Some((top.0 * top.1) as i64)
            } else {
                None
            }
        } else if top.0 * top.1 <= u32::MAX && top.0 * top.1 * top.2 <= u32::MAX {
            Some((top.0 * top.1 * top.2) as i64)
        } else {
            None
        }
    }
}

/// Multiplies the three largest sizes.
pub fn product(sizes: &Vec<u32>) -> (result: Option<i64>)
    ensures
        result == spec_product(sizes@),
{
    let n = sizes.len();
    if n == 0 {
        return Some(1);
    }
    if n == 1 {
        return Some(sizes[0] as i64);
    }
    let mut top: (u32, u32, u32) = (0, 0, 0);
    let mut k: usize = 0;
    while k < n
        invariant
            k <= n,
            n == sizes@.len(),
            top == largest(sizes@, k as int),
        decreases n - k,
    {
        let size = sizes[k];
        if size > top.0 {
            top = (size, top.0, top.1);
        } else if size > top.1 {
            top = (top.0, size, top.1);
        } else if size > top.2 {
            top = (top.0, top.1, size);
        }
        k += 1;
    }
    match top.0.checked_mul(top.1) {
        Some(both) => if n == 2 {
            Some(both as i64)
        } else {
            match both.checked_mul(top.2) {
                Some(all) => Some(all as i64),
                None => None,
            }
        },
        None => None,
    }
}

// ---------------------------------------------------------------------------
// The two answers
// ---------------------------------------------------------------------------

/// The product of the sizes of the three largest circuits after the first
/// `connections` pairs of boxes have been linked. There is none if the text
/// does not describe boxes, if there are more boxes than 32 bits can count, if
/// a distance cannot be computed, if the boxes have fewer pairs, or if the
/// product is too large.
pub open spec fn spec_solve_1(text: Seq<u8>, connections: u32) -> Option<i64> {
    match spec_parse_text(text) {
        Some(points) => if points.len() <= u32::MAX && all_measurable(points) {
            match links_after(points, connections as nat) {
                Some(links) => spec_product(sizes_of(links.circuit)),
                None => None,
            }
        } else {
            None
        },
        None => None,
    }
}

/// Every box in a circuit of its own.
pub fn each_apart(n: usize) -> (circuit: Vec<u32>)
    requires
        n <= u32::MAX,
    ensures
        circuit@ == apart(n as nat),
        labelled(circuit@),
{
    let mut circuit: Vec<u32> = Vec::new();
    let mut k: usize = 0;
    while k < n
        invariant
            k <= n,
            n <= u32::MAX,
            circuit@.len() == k,
            forall|m: int| 0 <= m < k ==> circuit@[m] == m as u32,
        decreases n - k,
    {
        circuit.push(k as u32);
        k += 1;
    }
    assert(circuit@ =~= apart(n as nat));
    circuit
}

/// Links the first `connections` pairs of the boxes of a text and
/// multiplies the sizes of the three largest circuits.
pub fn try_solve_1(text: &[u8], connections: u32) -> (answer: Option<i64>)
    ensures
        answer == spec_solve_1(text@, connections),
{
    let points = match parse_text(text) {
        Some(points) => points,
        None => {
            return None;
        },
    };
    let n = points.len();
    if n > 0xffff_ffff || !is_measurable(&points) {
        return None;
    }
    let mut circuit = each_apart(n);
    let mut last: Option<Pair> = None;
    let mut done: u32 = 0;
    while done < connections
        invariant
            done <= connections,
            n == points@.len(),
            n <= u32::MAX,
            all_measurable(points@),
            labelled(circuit@),
            circuit@.len() == n,
            links_after(points@, done as nat) == Some(Links { circuit: circuit@, last }),
            Some(points@) == spec_parse_text(text@),
        decreases connections - done,
    {
        match closest_after(&points, last) {
            Some(pair) => {
                proof {
                    lemma_closest_is_pair(points@, last);
                }
                join(&mut circuit, pair.i, pair.j);
                last = Some(pair);
            },
            None => {
                proof {
                    assert(links_after(points@, (done + 1) as nat) is None);
                    lemma_links_run_out(points@, (done + 1) as nat, connections as nat);
                }
                return None;
            },
        }
        done += 1;
    }
    let sizes = circuit_sizes(&circuit);
    product(&sizes)
}

/// The product of the sizes of the three largest circuits after the first
/// `connections` pairs of boxes have been linked.
pub fn solve_1(text: &str, connections: u32) -> (answer: i64)
    requires
        spec_solve_1(text.spec_bytes(), connections) is Some,
    ensures
        Some(answer) == spec_solve_1(text.spec_bytes(), connections),
{
    try_solve_1(text.as_bytes(), connections).unwrap()
}

/// How many pairs the first answer links.
pub const CONNECTIONS: u32 = 1000;

/// The first answer: the product of the sizes of the three largest
/// circuits after the first thousand pairs have been linked.
pub fn try_parse_1(text: &[u8]) -> (answer: Option<i64>)
    ensures
        answer == spec_solve_1(text@, CONNECTIONS),
{
    try_solve_1(text, CONNECTIONS)
}

/// The first answer: the product of the sizes of the three largest
/// circuits after the first thousand pairs have been linked.
pub fn parse_1(text: &str) -> (answer: i64)
    requires
        spec_solve_1(text.spec_bytes(), CONNECTIONS) is Some,
    ensures
        Some(answer) == spec_solve_1(text.spec_bytes(), CONNECTIONS),
{
    solve_1(text, CONNECTIONS)
}

/// Whether all boxes belong to one circuit.
pub open spec fn uniform(circuit: Seq<u32>) -> bool {
    forall|k: int| 0 <= k < circuit.len() ==> #[trigger] circuit[k] == circuit[0]
}

/// Tests whether all boxes belong to one circuit.
pub fn is_uniform(circuit: &Vec<u32>) -> (one: bool)
    ensures
        one == uniform(circuit@),
{
    let mut k: usize = 0;
    while k < circuit.len()
        invariant
            k <= circuit@.len(),
            forall|m: int| 0 <= m < k ==> #[trigger] circuit@[m] == circuit@[0],
        decreases circuit@.len() - k,
    {
        if circuit[k] != circuit[0] {
            return false;
        }
        k += 1;
    }
    true
}

/// The pair whose link makes one circuit of all boxes, going on from
/// `links` for at most `fuel` pairs. There is none if the pairs run out
/// first.
pub open spec fn closing_pair(points: Seq<(i64, i64, i64)>, links: Links, fuel: nat) -> Option<
    Pair,
>
    decreases fuel,
{
    if fuel == 0 {
        None
    } else {
        match spec_closest_after(points, links.last) {
            Some(pair) => {
                let next = joined(links.circuit, pair.i as int, pair.j as int);
                if links.circuit[pair.i as int] != links.circuit[pair.j as int] && uniform(next) {
                    Some(pair)
                } else {
                    closing_pair(
                        points,
                        Links { circuit: next, last: Some(pair) },
                        (fuel - 1) as nat,
                    )
                }
            },
            None => None,
        }
    }
}

/// The second answer: the product of the first coordinates of the two
/// boxes whose link makes one circuit of all boxes. There is none if the
/// text does not describe boxes, if there are more boxes than 32 bits can
/// count, if a distance cannot be computed, if the boxes never come to be one
/// circuit, or if the product is too large.
pub open spec fn spec_answer_2(text: Seq<u8>) -> Option<i64> {
    match spec_parse_text(text) {
        Some(points) => if points.len() <= u32::MAX && all_measurable(points) {
            match closing_pair(
                points,
                Links { circuit: apart(points.len()), last: None },
                points.len() * points.len(),
            ) {
                Some(pair) => if in_range(points[pair.i as int].0 * points[pair.j as int].0) {
                    Some((points[pair.i as int].0 * points[pair.j as int].0) as i64)
                } else {
                    None
                },
                None => None,
            }
        } else {
            None
        },
        None => None,
    }
}

/// Links the pairs of the boxes of a text until all boxes are one circuit,
/// and multiplies the first coordinates of the two boxes linked last.
pub fn try_parse_2(text: &[u8]) -> (answer: Option<i64>)
    ensures
        answer == spec_answer_2(text@),
{
    let points = match parse_text(text) {
        Some(points) => points,
        None => {
            return None;
        },
    };
    let n = points.len();
    if n > 0xffff_ffff || !is_measurable(&points) {
        return None;
    }
    let mut circuit = each_apart(n);
    let mut last: Option<Pair> = None;
    assert((n as u64) * (n as u64) <= u64::MAX) by (nonlinear_arith)
        requires
            n <= 0xffff_ffff,
    ;
    let mut fuel: u64 = (n as u64) * (n as u64);
    let ghost whole = closing_pair(
        points@,
        Links { circuit: apart(n as nat), last: None },
        (n * n) as nat,
    );
    while fuel > 0
        invariant
            n == points@.len(),
            n <= u32::MAX,
            all_measurable(points@),
            labelled(circuit@),
            circuit@.len() == n,
            closing_pair(points@, Links { circuit: circuit@, last }, fuel as nat) == whole,
            whole == closing_pair(
                points@,
                Links { circuit: apart(n as nat), last: None },
                (n * n) as nat,
            ),
            Some(points@) == spec_parse_text(text@),
        decreases fuel,
    {
        match closest_after(&points, last) {
            Some(pair) => {
                proof {
                    lemma_closest_is_pair(points@, last);
                }
                let apart_before: bool = circuit[pair.i] != circuit[pair.j];
                join(&mut circuit, pair.i, pair.j);
                if apart_before && is_uniform(&circuit) {
                    return points[pair.i].0.checked_mul(points[pair.j].0);
                }
                last = Some(pair);
            },
            None => {
                return None;
            },
        }
        fuel -= 1;
    }
    None
}

/// The second answer: the product of the first coordinates of the two
/// boxes whose link makes one circuit of all boxes.
pub fn parse_2(text: &str) -> (answer: i64)
    requires
        spec_answer_2(text.spec_bytes()) is Some,
    ensures
        Some(answer) == spec_answer_2(text.spec_bytes()),
{
    try_parse_2(text.as_bytes()).unwrap()
}

} // verus!

//! Ranges of fresh ingredients, and the ingredients that fall into them.
//!
//! A line of the text either holds a range, two numbers with a hyphen
//! between them, or the number of an ingredient. The ends of the ranges
//! are put in order and counted through: at every end stands how many ranges
//! cover it.

use crate::text::{
    find_range, lines, nonempty_lines, parse_digits, parse_usize, spec_find_range,
    spec_parse_digits, spec_parse_usize, views,
};
use std::cmp::Ordering;
use vstd::prelude::*;
use vstd::slice::slice_subrange;
use vstd::string::StringSliceAdditionalSpecFns;

verus! {

/// An end of a range.
#[derive(Debug, Clone, Copy)]
pub struct Edge {
    /// Where the end stands.
    pub pos: usize,
    /// Whether a range begins here; it ends here otherwise.
    pub up: bool,
    /// How many ranges cover this end.
    pub count: u32,
}

/// Whether `a` comes before `b`: ends are ordered by where they stand, and
/// of two ends that stand at the same place a beginning comes first.
pub open spec fn spec_before(a: Edge, b: Edge) -> bool {
    a.pos < b.pos || (a.pos == b.pos && a.up)
}

/// Whether `a` comes after `b`.
pub open spec fn spec_after(a: Edge, b: Edge) -> bool {
    a.pos > b.pos || (a.pos == b.pos && !a.up && b.up)
}

/// Compares two ends of ranges.
pub fn cmp_edge(a: &Edge, b: &Edge) -> (order: Ordering)
    ensures
        order == Ordering::Less <==> spec_before(*a, *b),
        order == Ordering::Greater <==> spec_after(*a, *b),
{
    if a.pos < b.pos {
        Ordering::Less
    } else if a.pos > b.pos {
        Ordering::Greater
    } else if a.up {
        Ordering::Less
    } else if b.up {
        Ordering::Greater
    } else {
        Ordering::Equal
    }
}

/// Whether `a` comes before `b`.
pub fn comes_before(a: &Edge, b: &Edge) -> (before: bool)
    ensures
        before == spec_before(*a, *b),
{
    match cmp_edge(a, b) {
        Ordering::Less => true,
        _ => false,
    }
}

/// The ends in order with one more end, which goes behind every end that it
/// does not come before.
pub open spec fn insert_edge(sorted: Seq<Edge>, edge: Edge) -> Seq<Edge>
    decreases sorted.len(),
{
    if sorted.len() == 0 {
        seq![edge]
    } else if spec_before(edge, sorted.last()) {
        insert_edge(sorted.drop_last(), edge).push(sorted.last())
    } else {
        sorted.push(edge)
    }
}

/// The ends put in order, one after the other.
pub open spec fn sort_edges(edges: Seq<Edge>) -> Seq<Edge>
    decreases edges.len(),
{
    if edges.len() == 0 {
        Seq::empty()
    } else {
        insert_edge(sort_edges(edges.drop_last()), edges.last())
    }
}

/// An end goes to the place behind which it comes before every end, and
/// before which stands an end that it does not come before.
pub proof fn lemma_insert_at(sorted: Seq<Edge>, edge: Edge, at: int)
    requires
        0 <= at <= sorted.len(),
        forall|j: int| at <= j < sorted.len() ==> spec_before(edge, #[trigger] sorted[j]),
        at > 0 ==> !spec_before(edge, sorted[at - 1]),
    ensures
        insert_edge(sorted, edge) == sorted.insert(at, edge),
    decreases sorted.len(),
{
    if at == sorted.len() {
        assert(sorted.insert(at, edge) =~= sorted.push(edge));
    } else {
        let front = sorted.drop_last();
        assert forall|j: int| at <= j < front.len() implies spec_before(
            edge,
            #[trigger] front[j],
        ) by {
            assert(front[j] == sorted[j]);
        }
        lemma_insert_at(front, edge, at);
        assert(front.insert(at, edge).push(sorted.last()) =~= sorted.insert(at, edge));
    }
}

/// Puts one more end into ends that are in order.
pub fn insert_sorted(sorted: &mut Vec<Edge>, edge: Edge)
    ensures
        final(sorted)@ == insert_edge(old(sorted)@, edge),
{
    let mut at: usize = sorted.len();
    let mut searching = true;
    while searching
        invariant
            at <= sorted@.len(),
            sorted@ == old(sorted)@,
            forall|j: int| at <= j < sorted@.len() ==> spec_before(edge, #[trigger] sorted@[j]),
            !searching ==> (at > 0 ==> !spec_before(edge, sorted@[at - 1])),
        decreases
                if searching {
                    at + 1
                } else {
                    0
                },
    {
        if at == 0 {
            searching = false;
        } else if comes_before(&edge, &sorted[at - 1]) {
            at -= 1;
        } else {
            searching = false;
        }
    }
    proof {
        lemma_insert_at(sorted@, edge, at as int);
    }
    sorted.insert(at, edge);
}

/// Puts the ends in order.
pub fn sort(edges: &Vec<Edge>) -> (sorted: Vec<Edge>)
    ensures
        sorted@ == sort_edges(edges@),
{
    let mut sorted: Vec<Edge> = Vec::new();
    let mut i: usize = 0;
    assert(edges@.take(0) =~= Seq::<Edge>::empty());
    while i < edges.len()
        invariant
            i <= edges@.len(),
            sorted@ == sort_edges(edges@.take(i as int)),
        decreases edges@.len() - i,
    {
        proof {
            let longer = edges@.take(i + 1);
            assert(longer.drop_last() =~= edges@.take(i as int));
            assert(longer.last() == edges@[i as int]);
        }
        insert_sorted(&mut sorted, edges[i]);
        i += 1;
    }
    assert(edges@.take(edges@.len() as int) =~= edges@);
    sorted
}

/// How many ranges are open behind the first `n` ends.
pub open spec fn depth_after(edges: Seq<Edge>, n: int) -> int
    decreases n,
{
    if n <= 0 {
        0
    } else if edges[n - 1].up {
        depth_after(edges, n - 1) + 1
    } else {
        depth_after(edges, n - 1) - 1
    }
}

/// No more ranges end than begin, nowhere, and never more are open than a
/// `u32` counts.
pub open spec fn countable(edges: Seq<Edge>) -> bool {
    forall|n: int| 0 <= n <= edges.len() ==> 0 <= #[trigger] depth_after(edges, n) <= u32::MAX
}

/// The ends with their counts: a beginning is covered by the ranges that are
/// open behind it, an end by those that are open before it.
pub open spec fn counted(edges: Seq<Edge>) -> Seq<Edge> {
    Seq::new(
        edges.len(),
        |i: int|
            Edge {
                pos: edges[i].pos,
                up: edges[i].up,
                count: (if edges[i].up {
                    depth_after(edges, i + 1)
                } else {
                    depth_after(edges, i)
                }) as u32,
            },
    )
}

/// Counts through the ends, or gives `None` if they cannot be counted.
pub fn count_through(edges: Vec<Edge>) -> (done: Option<Vec<Edge>>)
    ensures
        done is Some <==> countable(edges@),
        done matches Some(with) ==> with@ == counted(edges@),
{
    let mut with: Vec<Edge> = Vec::new();
    let mut cur_count: u32 = 0;
    let mut i: usize = 0;
    while i < edges.len()
        invariant
            i <= edges@.len(),
            with@.len() == i,
            cur_count == depth_after(edges@, i as int),
            forall|n: int| 0 <= n <= i ==> 0 <= #[trigger] depth_after(edges@, n) <= u32::MAX,
            forall|j: int| 0 <= j < i ==> with@[j] == counted(edges@)[j],
        decreases edges@.len() - i,
    {
        let edge = edges[i];
        if edge.up {
            if cur_count == u32::MAX {
                assert(depth_after(edges@, i + 1) > u32::MAX);
                return None;
            }
            cur_count += 1;
            with.push(Edge { pos: edge.pos, up: true, count: cur_count });
        } else {
            if cur_count == 0 {
                assert(depth_after(edges@, i + 1) < 0);
                return None;
            }
            with.push(Edge { pos: edge.pos, up: false, count: cur_count });
            cur_count -= 1;
        }
        i += 1;
    }
    assert(with@ =~= counted(edges@));
    Some(with)
}

/// What has been read of a text: the ends of its ranges, and its
/// ingredients.
pub struct Listing {
    /// The ends of the ranges.
    pub edges: Seq<Edge>,
    /// The ingredients.
    pub items: Seq<usize>,
}

/// What one more line adds: the two ends of the first range in it or, if
/// there is no range in it, the ingredient that the whole line names.
pub open spec fn read_line(listing: Listing, line: Seq<u8>) -> Option<Listing> {
    match spec_find_range(line) {
        Some(places) => {
            let first = spec_parse_digits(line.subrange(places.0, places.1), usize::MAX as u64);
            let second = spec_parse_digits(
                line.subrange(places.1 + 1, places.2),
                usize::MAX as u64,
            );
            if first is Some && second is Some {
                Some(
                    Listing {
                        edges: listing.edges.push(
                            Edge { pos: first->0 as usize, up: true, count: 0 },
                        ).push(Edge { pos: second->0 as usize, up: false, count: 0 }),
                        items: listing.items,
                    },
                )
            } else {
                None
            }
        },
        None => match spec_parse_usize(line) {
            Some(item) => Some(Listing { edges: listing.edges, items: listing.items.push(item) }),
            None => None,
        },
    }
}

/// What the lines add up to.
pub open spec fn read_lines(found: Seq<Seq<u8>>) -> Option<Listing>
    decreases found.len(),
{
    if found.len() == 0 {
        Some(Listing { edges: Seq::empty(), items: Seq::empty() })
    } else {
        match read_lines(found.drop_last()) {
            Some(listing) => read_line(listing, found.last()),
            None => None,
        }
    }
}

/// Once a line cannot be read, nothing comes of the text.
pub proof fn lemma_read_fails(found: Seq<Seq<u8>>, upto: int)
    requires
        0 <= upto <= found.len(),
        read_lines(found.take(upto)) is None,
    ensures
        read_lines(found) is None,
    decreases found.len() - upto,
{
    if upto < found.len() {
        let longer = found.take(upto + 1);
        assert(longer.drop_last() =~= found.take(upto));
        lemma_read_fails(found, upto + 1);
    } else {
        assert(found.take(upto) =~= found);
    }
}

/// What a text reads as: the ends of its ranges, in order and counted
/// through, and its ingredients.
pub open spec fn spec_parse_text(text: Seq<u8>) -> Option<Listing> {
    match read_lines(nonempty_lines(text)) {
        Some(listing) => if countable(sort_edges(listing.edges)) {
            Some(Listing { edges: counted(sort_edges(listing.edges)), items: listing.items })
        } else {
            None
        },
        None => None,
    }
}

/// Reads the ranges and the ingredients that a text holds.
pub fn parse_text(text: &[u8]) -> (read: Option<(Vec<Edge>, Vec<usize>)>)
    ensures
        read is Some <==> spec_parse_text(text@) is Some,
        read matches Some(pair) ==> spec_parse_text(text@) == Some(
            Listing { edges: pair.0@, items: pair.1@ },
        ),
{
    let found = lines(text);
    let mut intervals: Vec<Edge> = Vec::new();
    let mut items: Vec<usize> = Vec::new();
    let mut i: usize = 0;
    let ghost all = nonempty_lines(text@);
    assert(all.take(0) =~= Seq::<Seq<u8>>::empty());
    while i < found.len()
        invariant
            i <= found@.len(),
            views(found@) == all,
            all == nonempty_lines(text@),
            read_lines(all.take(i as int)) == Some(Listing { edges: intervals@, items: items@ }),
        decreases found@.len() - i,
    {
        let line = found[i];
        proof {
            let longer = all.take(i + 1);
            assert(longer.drop_last() =~= all.take(i as int));
            assert(longer.last() == line@);
            if read_lines(longer) is None {
                lemma_read_fails(all, i + 1);
            }
        }
        match find_range(line) {
            Some(places) => {
                let first = slice_subrange(line, places.0, places.1);
                let second = slice_subrange(line, places.1 + 1, places.2);
                match parse_digits(first, usize::MAX as u64) {
                    Some(a) => match parse_digits(second, usize::MAX as u64) {
                        Some(b) => {
                            intervals.push(Edge { pos: a as usize, up: true, count: 0 });
                            intervals.push(Edge { pos: b as usize, up: false, count: 0 });
                        },
                        None => {
                            return None;
                        },
                    },
                    None => {
                        return None;
                    },
                }
            },
            None => match parse_usize(line) {
                Some(item) => {
                    items.push(item);
                },
                None => {
                    return None;
                },
            },
        }
        i += 1;
    }
    assert(all.take(all.len() as int) =~= all);
    let sorted = sort(&intervals);
    match count_through(sorted) {
        Some(with) => Some((with, items)),
        None => None,
    }
}

/// How many of the first ends stand before `item`.
pub open spec fn lead(intervals: Seq<Edge>, item: usize, upto: int) -> int
    decreases upto,
{
    if upto <= 0 {
        0
    } else if lead(intervals, item, upto - 1) == upto - 1 && intervals[upto - 1].pos < item {
        upto
    } else {
        lead(intervals, item, upto - 1)
    }
}

/// Whether an ingredient is fresh: it is if it stands between the first and
/// the last end and either at an end or before an end that does not begin the
/// first range to cover it.
pub open spec fn spec_is_fresh(intervals: Seq<Edge>, item: usize) -> bool {
    let at = lead(intervals, item, intervals.len() as int);
    if item < intervals[0].pos || item > intervals.last().pos {
        false
    } else {
        intervals[at].pos == item || !(intervals[at].up && intervals[at].count == 1)
    }
}

/// Whether an ingredient is fresh.
pub fn is_fresh(intervals: &[Edge], item: usize) -> (fresh: bool)
    requires
        intervals@.len() > 0,
    ensures
        fresh == spec_is_fresh(intervals@, item),
{
    let n = intervals.len();
    if item < intervals[0].pos || item > intervals[n - 1].pos {
        return false;
    }
    let mut at: usize = 0;
    while at < n && intervals[at].pos < item
        invariant
            at <= n,
            n == intervals@.len(),
            at == lead(intervals@, item, at as int),
        decreases n - at,
    {
        at += 1;
    }
    proof {
        lemma_lead_stops(intervals@, item, at as int, n as int);
    }
    let e = &intervals[at];
    e.pos == item || !(e.up && e.count == 1)
}

/// Once an end does not stand before the ingredient, no later end counts.
pub proof fn lemma_lead_stops(intervals: Seq<Edge>, item: usize, at: int, upto: int)
    requires
        0 <= at <= upto <= intervals.len(),
        at == lead(intervals, item, at),
        at < intervals.len() ==> intervals[at].pos >= item,
        intervals.len() > 0,
        item <= intervals.last().pos,
    ensures
        lead(intervals, item, upto) == at,
        at < intervals.len(),
    decreases upto - at,
{
    if at < upto {
        lemma_lead_stops(intervals, item, at, upto - 1);
    }
    if at == intervals.len() {
        lemma_lead_all(intervals, item, at);
    }
}

/// If all of the first ends count, all of them stand before the ingredient.
pub proof fn lemma_lead_all(intervals: Seq<Edge>, item: usize, upto: int)
    requires
        0 < upto <= intervals.len(),
        lead(intervals, item, upto) == upto,
    ensures
        intervals[upto - 1].pos < item,
{
    lemma_lead_bound(intervals, item, upto - 1);
}

/// No more ends count than there are.
pub proof fn lemma_lead_bound(intervals: Seq<Edge>, item: usize, upto: int)
    requires
        0 <= upto,
    ensures
        0 <= lead(intervals, item, upto) <= upto,
    decreases upto,
{
    if upto > 0 {
        lemma_lead_bound(intervals, item, upto - 1);
    }
}

/// How many of the first `upto` ingredients are fresh.
pub open spec fn fresh_upto(intervals: Seq<Edge>, items: Seq<usize>, upto: int) -> int
    decreases upto,
{
    if upto <= 0 {
        0
    } else {
        fresh_upto(intervals, items, upto - 1) + if spec_is_fresh(intervals, items[upto - 1]) {
            1int
        } else {
            0int
        }
    }
}

/// The answer to the first part: how many ingredients are fresh. There is
/// none if the text cannot be read, or if there are ingredients and no ranges.
pub open spec fn spec_answer_1(text: Seq<u8>) -> Option<i64> {
    match spec_parse_text(text) {
        Some(listing) => if (listing.items.len() > 0 && listing.edges.len() == 0) || fresh_upto(
            listing.edges,
            listing.items,
            listing.items.len() as int,
        ) > i64::MAX {
            None
        } else {
            Some(fresh_upto(listing.edges, listing.items, listing.items.len() as int) as i64)
        },
        None => None,
    }
}

/// More ingredients hold no fewer fresh ones.
pub proof fn lemma_fresh_grows(intervals: Seq<Edge>, items: Seq<usize>, fewer: int, more: int)
    requires
        0 <= fewer <= more,
    ensures
        0 <= fresh_upto(intervals, items, fewer) <= fresh_upto(intervals, items, more),
    decreases more,
{
    if fewer < more {
        lemma_fresh_grows(intervals, items, fewer, more - 1);
    } else if fewer > 0 {
        lemma_fresh_grows(intervals, items, fewer - 1, fewer - 1);
    }
}

/// Counts the fresh ingredients.
pub fn try_parse_1(text: &[u8]) -> (answer: Option<i64>)
    ensures
        answer == spec_answer_1(text@),
{
    match parse_text(text) {
        Some(pair) => {
            let intervals = pair.0;
            let items = pair.1;
            if items.len() > 0 && intervals.len() == 0 {
                return None;
            }
            let mut count: i64 = 0;
            let mut i: usize = 0;
            while i < items.len()
                invariant
                    i <= items@.len(),
                    intervals@.len() > 0 || items@.len() == 0,
                    spec_parse_text(text@) == Some(Listing { edges: intervals@, items: items@ }),
                    count == fresh_upto(intervals@, items@, i as int),
                decreases items@.len() - i,
            {
                if is_fresh(intervals.as_slice(), items[i]) {
                    if count == i64::MAX {
                        proof {
                            lemma_fresh_grows(intervals@, items@, i + 1, items@.len() as int);
                        }
                        return None;
                    }
                    count += 1;
                }
                i += 1;
            }
            Some(count)
        },
        None => None,
    }
}

/// How many of the ingredients in `text` are fresh.
pub fn parse_1(text: &str) -> (answer: i64)
    requires
        spec_answer_1(text.spec_bytes()) is Some,
    ensures
        Some(answer) == spec_answer_1(text.spec_bytes()),
{
    try_parse_1(text.as_bytes()).unwrap()
}

/// How far the ranges have been measured.
pub struct Measure {
    /// Where the range that is being measured began.
    pub start: usize,
    /// The length of the ranges measured so far.
    pub total: usize,
}

/// The measure after one more end: the first range to cover a place begins
/// where an end has the count one, and ends at the next such end.
pub open spec fn measure_step(measure: Measure, edge: Edge) -> Option<Measure> {
    if edge.count != 1 {
        Some(measure)
    } else if edge.up {
        Some(Measure { start: edge.pos, total: measure.total })
    } else if edge.pos < measure.start || measure.total + (edge.pos - measure.start) + 1
        > usize::MAX {
        None
    } else {
        Some(
            Measure {
                start: measure.start,
                total: (measure.total + (edge.pos - measure.start) + 1) as usize,
            },
        )
    }
}

/// The measure after the first `n` ends.
pub open spec fn measure_after(intervals: Seq<Edge>, n: int) -> Option<Measure>
    decreases n,
{
    if n <= 0 {
        Some(Measure { start: 0, total: 0 })
    } else {
        match measure_after(intervals, n - 1) {
            Some(measure) => measure_step(measure, intervals[n - 1]),
            None => None,
        }
    }
}

/// The answer to the second part: how many places the ranges cover
/// altogether.
pub open spec fn spec_answer_2(text: Seq<u8>) -> Option<i64> {
    match spec_parse_text(text) {
        Some(listing) => match measure_after(listing.edges, listing.edges.len() as int) {
            Some(measure) => Some(measure.total as i64),
            None => None,
        },
        None => None,
    }
}

/// Measures the places that the ranges cover.
pub fn measure(intervals: &Vec<Edge>) -> (done: Option<Measure>)
    ensures
        done == measure_after(intervals@, intervals@.len() as int),
{
    let mut total: usize = 0;
    let mut range_start: usize = 0;
    let mut failed = false;
    let mut i: usize = 0;
    while i < intervals.len()
        invariant
            i <= intervals@.len(),
            failed ==> measure_after(intervals@, i as int) is None,
            !failed ==> measure_after(intervals@, i as int) == Some(
                Measure { start: range_start, total },
            ),
        decreases intervals@.len() - i,
    {
        let e = &intervals[i];
        if !failed && e.count == 1 {
            if e.up {
                range_start = e.pos;
            } else if e.pos < range_start {
                failed = true;
            } else {
                match (e.pos - range_start).checked_add(1) {
                    Some(length) => match total.checked_add(length) {
                        Some(more) => {
                            total = more;
                        },
                        None => {
                            failed = true;
                        },
                    },
                    None => {
                        failed = true;
                    },
                }
            }
        }
        i += 1;
    }
    if failed {
        None
    } else {
        Some(Measure { start: range_start, total })
    }
}

/// Counts the places that the ranges cover.
pub fn try_parse_2(text: &[u8]) -> (answer: Option<i64>)
    ensures
        answer == spec_answer_2(text@),
{
    match parse_text(text) {
        Some(pair) => match measure(&pair.0) {
            Some(done) => Some(#[verifier::truncate] (done.total as i64)),
            None => None,
        },
        None => None,
    }
}

/// How many places the ranges in `text` cover.
pub fn parse_2(text: &str) -> (answer: i64)
    requires
        spec_answer_2(text.spec_bytes()) is Some,
    ensures
        Some(answer) == spec_answer_2(text.spec_bytes()),
{
    try_parse_2(text.as_bytes()).unwrap()
}

} // verus!

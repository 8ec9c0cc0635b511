//! A beam that is split on its way down a grid.
//!
//! The grid is given one row to a line. The beam enters at the `S` of the
//! first row and moves down a row at a time. Where a beam meets a splitter
//! `^` it ends, and a beam goes on to the left and to the right of the
//! splitter.

use crate::text::{find, find_from, lines, nonempty_lines, views};
use vstd::prelude::*;
use vstd::string::StringSliceAdditionalSpecFns;

verus! {

/// The sign of the place where the beam enters.
pub const START: u8 = 83;

/// The sign of a splitter.
pub const SPLITTER: u8 = 94;

/// The grid has a first row with a start in it, and no row is shorter than
/// the first.
pub open spec fn well_formed(rows: Seq<Seq<u8>>) -> bool {
    &&& rows.len() > 0
    &&& find(rows[0], START) < rows[0].len()
    &&& forall|i: int| 0 <= i < rows.len() ==> (#[trigger] rows[i]).len() >= rows[0].len()
}

/// There is a splitter in column `c` of the row.
pub open spec fn splits_at(row: Seq<u8>, c: int) -> bool {
    0 <= c < row.len() && row[c] == SPLITTER
}

/// Whether a beam leaves the row in column `c`, given the columns in which
/// beams enter it: a beam passes where there is no splitter, and comes from a
/// splitter that a beam hits in a column next to `c`.
pub open spec fn lit_next(row: Seq<u8>, beams: Seq<bool>, c: int) -> bool {
    ||| beams[c] && !splits_at(row, c)
    ||| c > 0 && beams[c - 1] && splits_at(row, c - 1)
    ||| c + 1 < beams.len() && beams[c + 1] && splits_at(row, c + 1)
}

/// The columns in which beams leave the row.
pub open spec fn beam_step(row: Seq<u8>, beams: Seq<bool>) -> Seq<bool> {
    Seq::new(beams.len(), |c: int| lit_next(row, beams, c))
}

/// The columns in which beams leave the first `n` rows.
pub open spec fn beams_after(rows: Seq<Seq<u8>>, n: int) -> Seq<bool>
    decreases n,
{
    if n <= 0 {
        Seq::new(rows[0].len(), |c: int| c == find(rows[0], START))
    } else {
        beam_step(rows[n - 1], beams_after(rows, n - 1))
    }
}

/// How many beams hit a splitter in the first `c` columns of the row.
pub open spec fn hits_upto(row: Seq<u8>, beams: Seq<bool>, c: int) -> nat
    decreases c,
{
    if c <= 0 {
        0
    } else {
        hits_upto(row, beams, c - 1) + if beams[c - 1] && splits_at(row, c - 1) {
            1nat
        } else {
            0nat
        }
    }
}

/// How many beams hit a splitter in the first `n` rows.
pub open spec fn splits_upto(rows: Seq<Seq<u8>>, n: int) -> nat
    decreases n,
{
    if n <= 0 {
        0
    } else {
        splits_upto(rows, n - 1) + hits_upto(
            rows[n - 1],
            beams_after(rows, n - 1),
            rows[0].len() as int,
        )
    }
}

/// More rows split no fewer beams.
pub proof fn lemma_splits_grow(rows: Seq<Seq<u8>>, fewer: int, more: int)
    requires
        fewer <= more,
    ensures
        splits_upto(rows, fewer) <= splits_upto(rows, more),
    decreases more - fewer,
{
    if fewer < more {
        lemma_splits_grow(rows, fewer, more - 1);
    }
}

/// More columns hold no fewer hits.
pub proof fn lemma_hits_grow(row: Seq<u8>, beams: Seq<bool>, fewer: int, more: int)
    requires
        fewer <= more,
    ensures
        hits_upto(row, beams, fewer) <= hits_upto(row, beams, more),
    decreases more - fewer,
{
    if fewer < more {
        lemma_hits_grow(row, beams, fewer, more - 1);
    }
}

/// The answer to the first part: how often a beam is split on its way down
/// the grid. There is none if the grid is not well formed or the number does
/// not fit an `i64`.
pub open spec fn spec_answer_1(text: Seq<u8>) -> Option<i64> {
    let rows = nonempty_lines(text);
    if well_formed(rows) && splits_upto(rows, rows.len() as int) <= i64::MAX {
        Some(splits_upto(rows, rows.len() as int) as i64)
    } else {
        None
    }
}

/// Checks that no row of the grid is shorter than `width`.
pub fn rows_reach(grid: &Vec<&[u8]>, width: usize) -> (wide: bool)
    ensures
        wide == forall|i: int| 0 <= i < grid@.len() ==> (#[trigger] views(grid@)[i]).len() >= width,
{
    let mut i: usize = 0;
    while i < grid.len()
        invariant
            i <= grid@.len(),
            forall|j: int| 0 <= j < i ==> (#[trigger] views(grid@)[j]).len() >= width,
        decreases grid@.len() - i,
    {
        if grid[i].len() < width {
            assert(views(grid@)[i as int].len() < width);
            return false;
        }
        assert(views(grid@)[i as int] == grid@[i as int]@);
        i += 1;
    }
    true
}

/// Counts how often a beam is split on its way down the grid.
pub fn try_parse_1(text: &[u8]) -> (answer: Option<i64>)
    ensures
        answer == spec_answer_1(text@),
{
    let grid = lines(text);
    let ghost rows = nonempty_lines(text@);
    if grid.len() == 0 {
        return None;
    }
    let first = grid[0];
    assert(views(grid@)[0] == first@);
    let width = first.len();
    let s_pos = find_from(first, 0, START);
    assert(first@.skip(0) =~= first@);
    if s_pos >= width {
        return None;
    }
    if !rows_reach(&grid, width) {
        return None;
    }
    assert(well_formed(rows));
    let mut beams: Vec<bool> = Vec::new();
    let mut c: usize = 0;
    while c < width
        invariant
            c <= width,
            beams@.len() == c,
            forall|j: int| 0 <= j < c ==> beams@[j] == (j == s_pos),
        decreases width - c,
    {
        beams.push(c == s_pos);
        c += 1;
    }
    assert(beams@ =~= beams_after(rows, 0));
    let mut split_count: i64 = 0;
    let mut n: usize = 0;
    while n < grid.len()
        invariant
            n <= grid@.len(),
            views(grid@) == rows,
            rows == nonempty_lines(text@),
            well_formed(rows),
            width == rows[0].len(),
            beams@ == beams_after(rows, n as int),
            beams@.len() == width,
            split_count == splits_upto(rows, n as int),
        decreases grid@.len() - n,
    {
        let line = grid[n];
        assert(rows[n as int] == line@);
        let mut next_beams: Vec<bool> = Vec::new();
        let mut col: usize = 0;
        let ghost before = split_count;
        while col < width
            invariant
                col <= width,
                n < grid@.len(),
                rows.len() == grid@.len(),
                rows == nonempty_lines(text@),
                well_formed(rows),
                rows[n as int] == line@,
                line@.len() >= width,
                beams@.len() == width,
                next_beams@.len() == col,
                forall|j: int| 0 <= j < col ==> next_beams@[j] == lit_next(line@, beams@, j),
                split_count == before + hits_upto(line@, beams@, col as int),
                before == splits_upto(rows, n as int),
                beams@ == beams_after(rows, n as int),
                width == rows[0].len(),
            decreases width - col,
        {
            let here = line[col] == SPLITTER;
            if here && beams[col] {
                if split_count == i64::MAX {
                    proof {
                        lemma_hits_grow(line@, beams@, col + 1, width as int);
                        lemma_splits_grow(rows, n + 1, rows.len() as int);
                    }
                    return None;
                }
                split_count += 1;
            }
            let from_left = col > 0 && beams[col - 1] && line[col - 1] == SPLITTER;
            let from_right = col + 1 < width && beams[col + 1] && line[col + 1] == SPLITTER;
            next_beams.push((beams[col] && !here) || from_left || from_right);
            col += 1;
        }
        assert(next_beams@ =~= beam_step(line@, beams@));
        beams = next_beams;
        n += 1;
    }
    Some(split_count)
}

/// How often a beam is split on its way down the grid that `text` shows.
pub fn parse_1(text: &str) -> (answer: i64)
    requires
        spec_answer_1(text.spec_bytes()) is Some,
    ensures
        Some(answer) == spec_answer_1(text.spec_bytes()),
{
    try_parse_1(text.as_bytes()).unwrap()
}

/// How many ways lead out of the row in column `c`, given the number of ways
/// that lead into each column: those that pass where there is no splitter,
/// and those that a splitter in a column next to `c` sends here.
pub open spec fn ways_next(row: Seq<u8>, ways: Seq<int>, c: int) -> int {
    (if splits_at(row, c) {
        0
    } else {
        ways[c]
    }) + (if c > 0 && splits_at(row, c - 1) {
        ways[c - 1]
    } else {
        0
    }) + (if c + 1 < ways.len() && splits_at(row, c + 1) {
        ways[c + 1]
    } else {
        0
    })
}

/// The number of ways that lead out of the row in each column.
pub open spec fn ways_step(row: Seq<u8>, ways: Seq<int>) -> Seq<int> {
    Seq::new(ways.len(), |c: int| ways_next(row, ways, c))
}

/// The number of ways that lead out of the first `n` rows in each column.
pub open spec fn ways_after(rows: Seq<Seq<u8>>, n: int) -> Seq<int>
    decreases n,
{
    if n <= 0 {
        Seq::new(
            rows[0].len(),
            |c: int|
                if c == find(rows[0], START) {
                    1int
                } else {
                    0int
                },
        )
    } else {
        ways_step(rows[n - 1], ways_after(rows, n - 1))
    }
}

/// The sum of the first `c` numbers.
pub open spec fn sum_upto(ways: Seq<int>, c: int) -> int
    decreases c,
{
    if c <= 0 {
        0
    } else {
        sum_upto(ways, c - 1) + ways[c - 1]
    }
}

/// No number is negative.
pub open spec fn all_natural(ways: Seq<int>) -> bool {
    forall|c: int| 0 <= c < ways.len() ==> 0 <= #[trigger] ways[c]
}

/// No number is larger than an `i64` can hold.
pub open spec fn all_fit(ways: Seq<int>) -> bool {
    forall|c: int| 0 <= c < ways.len() ==> #[trigger] ways[c] <= i64::MAX
}

/// The numbers of ways fit an `i64` after each of the first `n` rows.
pub open spec fn ways_fit(rows: Seq<Seq<u8>>, n: int) -> bool {
    forall|k: int| 0 <= k <= n ==> all_fit(#[trigger] ways_after(rows, k))
}

/// Numbers of ways are never negative.
pub proof fn lemma_ways_natural(rows: Seq<Seq<u8>>, n: int)
    ensures
        all_natural(ways_after(rows, n)),
    decreases n,
{
    if n > 0 {
        lemma_ways_natural(rows, n - 1);
    }
}

/// The sum of natural numbers grows with every number added.
pub proof fn lemma_sum_grows(ways: Seq<int>, fewer: int, more: int)
    requires
        all_natural(ways),
        0 <= fewer <= more <= ways.len(),
    ensures
        0 <= sum_upto(ways, fewer) <= sum_upto(ways, more),
    decreases more,
{
    if fewer < more {
        lemma_sum_grows(ways, fewer, more - 1);
    } else if fewer > 0 {
        lemma_sum_grows(ways, fewer - 1, fewer - 1);
    }
}

/// The answer to the second part: the number of ways that a particle can
/// take down the grid, going left or right at every splitter it meets. There
/// is none if the grid is not well formed or a number of ways does not fit an
/// `i64`.
pub open spec fn spec_answer_2(text: Seq<u8>) -> Option<i64> {
    let rows = nonempty_lines(text);
    let last = ways_after(rows, rows.len() as int);
    if well_formed(rows) && ways_fit(rows, rows.len() as int) && sum_upto(last, last.len() as int)
        <= i64::MAX {
        Some(sum_upto(last, last.len() as int) as i64)
    } else {
        None
    }
}

/// The views of the numbers.
pub open spec fn as_ints(ways: Seq<i64>) -> Seq<int> {
    Seq::new(ways.len(), |c: int| ways[c] as int)
}

/// Counts the ways that lead down the grid.
pub fn try_parse_2(text: &[u8]) -> (answer: Option<i64>)
    ensures
        answer == spec_answer_2(text@),
{
    let grid = lines(text);
    let ghost rows = nonempty_lines(text@);
    if grid.len() == 0 {
        return None;
    }
    let first = grid[0];
    assert(views(grid@)[0] == first@);
    let width = first.len();
    let s_pos = find_from(first, 0, START);
    assert(first@.skip(0) =~= first@);
    if s_pos >= width {
        return None;
    }
    if !rows_reach(&grid, width) {
        return None;
    }
    assert(well_formed(rows));
    let mut tls: Vec<i64> = Vec::new();
    let mut c: usize = 0;
    while c < width
        invariant
            c <= width,
            tls@.len() == c,
            forall|j: int|
                0 <= j < c ==> tls@[j] == (if j == s_pos {
                    1i64
                } else {
                    0i64
                }),
        decreases width - c,
    {
        tls.push(if c == s_pos {
            1
        } else {
            0
        });
        c += 1;
    }
    assert(as_ints(tls@) =~= ways_after(rows, 0));
    let mut n: usize = 0;
    while n < grid.len()
        invariant
            n <= grid@.len(),
            views(grid@) == rows,
            rows == nonempty_lines(text@),
            well_formed(rows),
            width == rows[0].len(),
            as_ints(tls@) == ways_after(rows, n as int),
            tls@.len() == width,
            ways_fit(rows, n as int),
        decreases grid@.len() - n,
    {
        let line = grid[n];
        assert(rows[n as int] == line@);
        let ghost ways = as_ints(tls@);
        proof {
            lemma_ways_natural(rows, n as int);
        }
        let mut next_tls: Vec<i64> = Vec::new();
        let mut col: usize = 0;
        while col < width
            invariant
                col <= width,
                line@.len() >= width,
                tls@.len() == width,
                ways == as_ints(tls@),
                all_natural(ways),
                next_tls@.len() == col,
                forall|j: int| 0 <= j < col ==> next_tls@[j] == ways_next(line@, ways, j),
                n < grid@.len(),
                rows.len() == grid@.len(),
                rows == nonempty_lines(text@),
                well_formed(rows),
                rows[n as int] == line@,
                ways == ways_after(rows, n as int),
                width == rows[0].len(),
            decreases width - col,
        {
            assert(ways[col as int] == tls@[col as int]);
            let stay: i64 = if line[col] == SPLITTER {
                0
            } else {
                tls[col]
            };
            let left: i64 = if col > 0 && line[col - 1] == SPLITTER {
                assert(ways[col - 1] == tls@[col - 1]);
                tls[col - 1]
            } else {
                0
            };
            let right: i64 = if col + 1 < width && line[col + 1] == SPLITTER {
                assert(ways[col + 1] == tls@[col + 1]);
                tls[col + 1]
            } else {
                0
            };
            let sum = match stay.checked_add(left) {
                Some(part) => part.checked_add(right),
                None => None,
            };
            match sum {
                Some(cell) => {
                    next_tls.push(cell);
                },
                None => {
                    proof {
                        let after = ways_after(rows, n + 1);
                        assert(after[col as int] == ways_next(line@, ways, col as int));
                        assert(stay >= 0 && left >= 0 && right >= 0) by {
                            assert(ways[col as int] >= 0);
                            if col > 0 {
                                assert(ways[col - 1] >= 0);
                            }
                            if col + 1 < width {
                                assert(ways[col + 1] >= 0);
                            }
                        }
                        assert(after[col as int] > i64::MAX);
                        assert(!all_fit(after));
                        assert(0 <= n + 1 <= rows.len());
                        assert(!ways_fit(rows, rows.len() as int));
                    }
                    return None;
                },
            }
            col += 1;
        }
        proof {
            assert(as_ints(next_tls@) =~= ways_step(line@, ways));
            assert forall|k: int| 0 <= k <= n + 1 implies all_fit(
                #[trigger] ways_after(rows, k),
            ) by {
                if k == n + 1 {
                    assert forall|j: int| 0 <= j < ways_after(rows, k).len() implies (
                    #[trigger] ways_after(rows, k)[j]) <= i64::MAX by {
                        assert(ways_after(rows, k)[j] == next_tls@[j]);
                    }
                }
            }
        }
        tls = next_tls;
        n += 1;
    }
    let ghost last = as_ints(tls@);
    proof {
        lemma_ways_natural(rows, rows.len() as int);
    }
    let mut total: i64 = 0;
    let mut k: usize = 0;
    while k < tls.len()
        invariant
            k <= tls@.len(),
            rows == nonempty_lines(text@),
            well_formed(rows),
            ways_fit(rows, rows.len() as int),
            last == ways_after(rows, rows.len() as int),
            last == as_ints(tls@),
            all_natural(last),
            total == sum_upto(last, k as int),
        decreases tls@.len() - k,
    {
        assert(last[k as int] == tls@[k as int]);
        proof {
            lemma_sum_grows(last, k as int, k as int);
        }
        match total.checked_add(tls[k]) {
            Some(more) => {
                total = more;
            },
            None => {
                proof {
                    lemma_sum_grows(last, k + 1, last.len() as int);
                }
                return None;
            },
        }
        k += 1;
    }
    Some(total)
}

/// The number of ways that lead down the grid that `text` shows.
pub fn parse_2(text: &str) -> (answer: i64)
    requires
        spec_answer_2(text.spec_bytes()) is Some,
    ensures
        Some(answer) == spec_answer_2(text.spec_bytes()),
{
    try_parse_2(text.as_bytes()).unwrap()
}

} // verus!

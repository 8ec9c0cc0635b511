//! Rolls of paper on a grid, and which of them can be taken away.
//!
//! The grid is given one row to a line, a roll being an `@`. A roll can be
//! taken away when fewer than four of the eight places around it hold a roll.

use crate::text::{lines, nonempty_lines, views};
use vstd::prelude::*;
use vstd::string::StringSliceAdditionalSpecFns;

verus! {

/// The sign of a roll.
pub const ROLL: u8 = 64;

/// Whether a byte goes on with the sign that an earlier byte began.
pub open spec fn continues(byte: u8) -> bool {
    128 <= byte < 192
}

/// The places of a row, one for every sign of the line: `true` where the
/// sign is a roll.
pub open spec fn places(line: Seq<u8>) -> Seq<bool>
    decreases line.len(),
{
    if line.len() == 0 {
        Seq::empty()
    } else if continues(line.last()) {
        places(line.drop_last())
    } else {
        places(line.drop_last()).push(line.last() == ROLL)
    }
}

/// The grid that the lines show.
pub open spec fn grid_of(rows: Seq<Seq<u8>>) -> Seq<Seq<bool>> {
    Seq::new(rows.len(), |i: int| places(rows[i]))
}

/// The rows of a grid as sequences.
pub open spec fn cells(grid: Seq<Vec<bool>>) -> Seq<Seq<bool>> {
    Seq::new(grid.len(), |i: int| grid[i]@)
}

/// The grid has a first row, and no row is shorter than the first.
pub open spec fn well_formed(grid: Seq<Seq<bool>>) -> bool {
    &&& grid.len() > 0
    &&& forall|i: int| 0 <= i < grid.len() ==> (#[trigger] grid[i]).len() >= grid[0].len()
}

/// There is a roll at row `x`, column `y`, within the width of the first row.
pub open spec fn roll_at(grid: Seq<Seq<bool>>, x: int, y: int) -> bool {
    0 <= x < grid.len() && 0 <= y < grid[0].len() && grid[x][y]
}

/// One if there is a roll at the place, else zero.
pub open spec fn one_if(grid: Seq<Seq<bool>>, x: int, y: int) -> nat {
    if roll_at(grid, x, y) {
        1
    } else {
        0
    }
}

/// How many of the eight places around a place hold a roll.
pub open spec fn adjacent(grid: Seq<Seq<bool>>, x: int, y: int) -> nat {
    one_if(grid, x - 1, y - 1) + one_if(grid, x - 1, y) + one_if(grid, x - 1, y + 1) + one_if(
        grid,
        x,
        y - 1,
    ) + one_if(grid, x, y + 1) + one_if(grid, x + 1, y - 1) + one_if(grid, x + 1, y) + one_if(
        grid,
        x + 1,
        y + 1,
    )
}

/// The roll at the place can be taken away.
pub open spec fn removable(grid: Seq<Seq<bool>>, x: int, y: int) -> bool {
    roll_at(grid, x, y) && adjacent(grid, x, y) < 4
}

/// How many rolls in the first `y` columns of row `x` can be taken away.
pub open spec fn removable_in_row(grid: Seq<Seq<bool>>, x: int, y: int) -> nat
    decreases y,
{
    if y <= 0 {
        0
    } else {
        removable_in_row(grid, x, y - 1) + if removable(grid, x, y - 1) {
            1nat
        } else {
            0nat
        }
    }
}

/// How many rolls in the first `x` rows can be taken away.
pub open spec fn removable_upto(grid: Seq<Seq<bool>>, x: int) -> nat
    decreases x,
{
    if x <= 0 {
        0
    } else {
        removable_upto(grid, x - 1) + removable_in_row(grid, x - 1, grid[0].len() as int)
    }
}

/// How many rolls can be taken away.
pub open spec fn removable_count(grid: Seq<Seq<bool>>) -> nat {
    removable_upto(grid, grid.len() as int)
}

/// The grid without the rolls that can be taken away.
pub open spec fn eroded(grid: Seq<Seq<bool>>) -> Seq<Seq<bool>> {
    Seq::new(
        grid.len(),
        |x: int| Seq::new(grid[x].len(), |y: int| grid[x][y] && !removable(grid, x, y)),
    )
}

/// How many rolls there are in the first `y` columns of row `x`.
pub open spec fn rolls_in_row(grid: Seq<Seq<bool>>, x: int, y: int) -> nat
    decreases y,
{
    if y <= 0 {
        0
    } else {
        rolls_in_row(grid, x, y - 1) + one_if(grid, x, y - 1)
    }
}

/// How many rolls there are in the first `x` rows.
pub open spec fn rolls_upto(grid: Seq<Seq<bool>>, x: int) -> nat
    decreases x,
{
    if x <= 0 {
        0
    } else {
        rolls_upto(grid, x - 1) + rolls_in_row(grid, x - 1, grid[0].len() as int)
    }
}

/// How many rolls are taken away altogether when, round after round, all
/// rolls that can be taken away are, for at most `rounds` rounds.
pub open spec fn taken(grid: Seq<Seq<bool>>, rounds: nat) -> nat
    decreases rounds,
{
    if rounds == 0 || removable_count(grid) == 0 {
        0
    } else {
        removable_count(grid) + taken(eroded(grid), (rounds - 1) as nat)
    }
}

/// A round takes away as many rolls of a row as could be taken away.
pub proof fn lemma_row_eroded(grid: Seq<Seq<bool>>, x: int, y: int)
    requires
        well_formed(grid),
        0 <= x < grid.len(),
        0 <= y <= grid[0].len(),
    ensures
        rolls_in_row(eroded(grid), x, y) + removable_in_row(grid, x, y) == rolls_in_row(grid, x, y),
    decreases y,
{
    if y > 0 {
        lemma_row_eroded(grid, x, y - 1);
        assert(eroded(grid)[0].len() == grid[0].len());
        assert(eroded(grid)[x][y - 1] == (grid[x][y - 1] && !removable(grid, x, y - 1)));
    }
}

/// A round takes away as many rolls as could be taken away.
pub proof fn lemma_eroded(grid: Seq<Seq<bool>>, x: int)
    requires
        well_formed(grid),
        0 <= x <= grid.len(),
    ensures
        well_formed(eroded(grid)),
        eroded(grid)[0].len() == grid[0].len(),
        rolls_upto(eroded(grid), x) + removable_upto(grid, x) == rolls_upto(grid, x),
    decreases x,
{
    assert(eroded(grid)[0].len() == grid[0].len());
    assert forall|i: int| 0 <= i < eroded(grid).len() implies (#[trigger] eroded(grid)[i]).len()
        >= eroded(grid)[0].len() by {
        assert(grid[i].len() >= grid[0].len());
    }
    if x > 0 {
        lemma_eroded(grid, x - 1);
        lemma_row_eroded(grid, x - 1, grid[0].len() as int);
    }
}

/// Once as many rounds are allowed as there are rolls, more rounds take
/// away no more.
pub proof fn lemma_taken_settles(grid: Seq<Seq<bool>>, rounds: nat)
    requires
        well_formed(grid),
        rounds >= rolls_upto(grid, grid.len() as int),
    ensures
        taken(grid, rounds) == taken(grid, rolls_upto(grid, grid.len() as int)),
    decreases rounds,
{
    let rolls = rolls_upto(grid, grid.len() as int);
    lemma_eroded(grid, grid.len() as int);
    if removable_count(grid) > 0 && rounds > 0 {
        let next = eroded(grid);
        let left = rolls_upto(next, next.len() as int);
        lemma_taken_settles(next, (rounds - 1) as nat);
        lemma_taken_settles(next, (rolls - 1) as nat);
    }
}

/// The answer to the first part: how many rolls can be taken away. There is
/// none if the grid is not well formed or the number does not fit an `i64`.
pub open spec fn spec_answer_1(text: Seq<u8>) -> Option<i64> {
    let grid = grid_of(nonempty_lines(text));
    if well_formed(grid) && removable_count(grid) <= i64::MAX {
        Some(removable_count(grid) as i64)
    } else {
        None
    }
}

/// The answer to the second part: how many rolls are taken away when all
/// rolls that can be are taken away, again and again until none can.
pub open spec fn spec_answer_2(text: Seq<u8>) -> Option<i64> {
    let grid = grid_of(nonempty_lines(text));
    let all = taken(grid, rolls_upto(grid, grid.len() as int));
    if well_formed(grid) && all <= i64::MAX {
        Some(all as i64)
    } else {
        None
    }
}

/// Reads the places of a row.
pub fn parse_row(line: &[u8]) -> (row: Vec<bool>)
    ensures
        row@ == places(line@),
{
    let mut row: Vec<bool> = Vec::new();
    let mut i: usize = 0;
    assert(line@.take(0) =~= Seq::<u8>::empty());
    while i < line.len()
        invariant
            i <= line@.len(),
            row@ == places(line@.take(i as int)),
        decreases line@.len() - i,
    {
        let byte = line[i];
        proof {
            let longer = line@.take(i + 1);
            assert(longer.drop_last() =~= line@.take(i as int));
            assert(longer.last() == byte);
        }
        if byte < 128 || byte >= 192 {
            row.push(byte == ROLL);
        }
        i += 1;
    }
    assert(line@.take(line@.len() as int) =~= line@);
    row
}

/// Reads the grid that a text shows.
pub fn parse_text(text: &[u8]) -> (grid: Vec<Vec<bool>>)
    ensures
        cells(grid@) == grid_of(nonempty_lines(text@)),
{
    let found = lines(text);
    let mut grid: Vec<Vec<bool>> = Vec::new();
    let mut i: usize = 0;
    while i < found.len()
        invariant
            i <= found@.len(),
            views(found@) == nonempty_lines(text@),
            grid@.len() == i,
            forall|j: int| 0 <= j < i ==> (#[trigger] grid@[j])@ == places(nonempty_lines(text@)[j]),
        decreases found@.len() - i,
    {
        assert(views(found@)[i as int] == found@[i as int]@);
        grid.push(parse_row(found[i]));
        i += 1;
    }
    assert(cells(grid@) =~= grid_of(nonempty_lines(text@)));
    grid
}

/// Whether the grid has a first row and no row is shorter than the first.
pub fn is_well_formed(grid: &Vec<Vec<bool>>) -> (good: bool)
    ensures
        good == well_formed(cells(grid@)),
{
    if grid.len() == 0 {
        return false;
    }
    let width = grid[0].len();
    let mut i: usize = 0;
    while i < grid.len()
        invariant
            i <= grid@.len(),
            grid@.len() > 0,
            width == cells(grid@)[0].len(),
            forall|j: int| 0 <= j < i ==> (#[trigger] cells(grid@)[j]).len() >= width,
        decreases grid@.len() - i,
    {
        if grid[i].len() < width {
            assert(cells(grid@)[i as int].len() < width);
            return false;
        }
        i += 1;
    }
    true
}

/// Whether there is a roll at row `x + dx - 1`, column `y + dy - 1`.
pub fn has_roll(grid: &Vec<Vec<bool>>, x: usize, dx: usize, y: usize, dy: usize) -> (found: bool)
    requires
        well_formed(cells(grid@)),
        x < grid@.len(),
        y < cells(grid@)[0].len(),
        dx <= 2,
        dy <= 2,
    ensures
        found == roll_at(cells(grid@), x + dx - 1, y + dy - 1),
{
    if (x == 0 && dx == 0) || (y == 0 && dy == 0) {
        return false;
    }
    let height = grid.len();
    let width = grid[0].len();
    let i = if dx == 0 {
        x - 1
    } else if dx == 1 {
        x
    } else {
        x + 1
    };
    let j = if dy == 0 {
        y - 1
    } else if dy == 1 {
        y
    } else {
        y + 1
    };
    if i >= height || j >= width {
        return false;
    }
    assert(cells(grid@)[i as int].len() >= cells(grid@)[0].len());
    grid[i][j]
}

/// How many of the eight places around a place hold a roll.
pub fn count_adjacent(grid: &Vec<Vec<bool>>, x: usize, y: usize) -> (count: usize)
    requires
        well_formed(cells(grid@)),
        x < grid@.len(),
        y < cells(grid@)[0].len(),
    ensures
        count == adjacent(cells(grid@), x as int, y as int),
{
    let mut count: usize = 0;
    if has_roll(grid, x, 0, y, 0) {
        count += 1;
    }
    if has_roll(grid, x, 0, y, 1) {
        count += 1;
    }
    if has_roll(grid, x, 0, y, 2) {
        count += 1;
    }
    if has_roll(grid, x, 1, y, 0) {
        count += 1;
    }
    if has_roll(grid, x, 1, y, 2) {
        count += 1;
    }
    if has_roll(grid, x, 2, y, 0) {
        count += 1;
    }
    if has_roll(grid, x, 2, y, 1) {
        count += 1;
    }
    if has_roll(grid, x, 2, y, 2) {
        count += 1;
    }
    count
}

/// More columns hold no fewer rolls that can be taken away.
pub proof fn lemma_row_grows(grid: Seq<Seq<bool>>, x: int, fewer: int, more: int)
    requires
        fewer <= more,
    ensures
        removable_in_row(grid, x, fewer) <= removable_in_row(grid, x, more),
    decreases more - fewer,
{
    if fewer < more {
        lemma_row_grows(grid, x, fewer, more - 1);
    }
}

/// More rows hold no fewer rolls that can be taken away.
pub proof fn lemma_upto_grows(grid: Seq<Seq<bool>>, fewer: int, more: int)
    requires
        fewer <= more,
    ensures
        removable_upto(grid, fewer) <= removable_upto(grid, more),
    decreases more - fewer,
{
    if fewer < more {
        lemma_upto_grows(grid, fewer, more - 1);
    }
}

/// Takes away all rolls that can be taken away and says how many they were,
/// or `None` if they are more than an `i64` can count; the grid is then as
/// it was.
pub fn erode(grid: &Vec<Vec<bool>>) -> (round: Option<(Vec<Vec<bool>>, i64)>)
    requires
        well_formed(cells(grid@)),
    ensures
        round is Some <==> removable_count(cells(grid@)) <= i64::MAX,
        round matches Some(after) ==> cells(after.0@) == eroded(cells(grid@)) && after.1
            == removable_count(cells(grid@)),
{
    let ghost old_cells = cells(grid@);
    let width = grid[0].len();
    let mut next: Vec<Vec<bool>> = Vec::new();
    let mut removed: i64 = 0;
    let mut x: usize = 0;
    while x < grid.len()
        invariant
            x <= grid@.len(),
            old_cells == cells(grid@),
            well_formed(old_cells),
            width == old_cells[0].len(),
            next@.len() == x,
            forall|i: int| 0 <= i < x ==> (#[trigger] next@[i])@ == eroded(old_cells)[i],
            removed == removable_upto(old_cells, x as int),
        decreases grid@.len() - x,
    {
        let row = &grid[x];
        assert(old_cells[x as int] == row@);
        let mut kept: Vec<bool> = Vec::new();
        let mut y: usize = 0;
        let ghost before = removed;
        while y < row.len()
            invariant
                y <= row@.len(),
                x < grid@.len(),
                old_cells == cells(grid@),
                well_formed(old_cells),
                old_cells[x as int] == row@,
                width == old_cells[0].len(),
                kept@.len() == y,
                forall|j: int|
                    0 <= j < y ==> kept@[j] == (row@[j] && !removable(old_cells, x as int, j)),
                removed == before + removable_in_row(
                    old_cells,
                    x as int,
                    if y <= width {
                        y as int
                    } else {
                        width as int
                    },
                ),
                before == removable_upto(old_cells, x as int),
            decreases row@.len() - y,
        {
            let mut keep = row[y];
            if y < width && keep && count_adjacent(grid, x, y) < 4 {
                if removed == i64::MAX {
                    proof {
                        lemma_row_grows(old_cells, x as int, y + 1, width as int);
                        lemma_upto_grows(old_cells, x + 1, old_cells.len() as int);
                    }
                    return None;
                }
                removed += 1;
                keep = false;
            }
            kept.push(keep);
            y += 1;
        }
        assert(kept@ =~= eroded(old_cells)[x as int]);
        next.push(kept);
        x += 1;
    }
    assert(cells(next@) =~= eroded(old_cells));
    Some((next, removed))
}

/// Counts the rolls that can be taken away.
pub fn try_parse_1(text: &[u8]) -> (answer: Option<i64>)
    ensures
        answer == spec_answer_1(text@),
{
    let grid = parse_text(text);
    if !is_well_formed(&grid) {
        return None;
    }
    match erode(&grid) {
        Some(round) => Some(round.1),
        None => None,
    }
}

/// How many rolls of the grid that `text` shows can be taken away.
pub fn parse_1(text: &str) -> (answer: i64)
    requires
        spec_answer_1(text.spec_bytes()) is Some,
    ensures
        Some(answer) == spec_answer_1(text.spec_bytes()),
{
    try_parse_1(text.as_bytes()).unwrap()
}

/// Fewer rounds take away no more rolls.
pub proof fn lemma_taken_bounds(grid: Seq<Seq<bool>>, rounds: nat)
    ensures
        rounds > 0 ==> removable_count(grid) <= taken(grid, rounds),
        rounds > 0 && removable_count(grid) > 0 ==> taken(eroded(grid), (rounds - 1) as nat)
            <= taken(grid, rounds),
{
}

/// Counts the rolls that are taken away until none can be taken away any
/// more.
pub fn try_parse_2(text: &[u8]) -> (answer: Option<i64>)
    ensures
        answer == spec_answer_2(text@),
{
    let mut grid = parse_text(text);
    if !is_well_formed(&grid) {
        return None;
    }
    let ghost first = cells(grid@);
    let ghost all = taken(first, rolls_upto(first, first.len() as int));
    let mut removed: i64 = 0;
    let mut open = true;
    while open
        invariant
            first == grid_of(nonempty_lines(text@)),
            well_formed(first),
            all == taken(first, rolls_upto(first, first.len() as int)),
            well_formed(cells(grid@)),
            removed >= 0,
            open ==> removed + taken(
                cells(grid@),
                rolls_upto(cells(grid@), grid@.len() as int),
            ) == all,
            !open ==> removed == all,
        decreases
                if open {
                    rolls_upto(cells(grid@), grid@.len() as int) + 1
                } else {
                    0
                },
    {
        let ghost now = cells(grid@);
        let ghost rolls = rolls_upto(now, now.len() as int);
        proof {
            lemma_eroded(now, now.len() as int);
            lemma_taken_bounds(now, rolls);
        }
        match erode(&grid) {
            Some(round) => {
                if round.1 == 0 {
                    open = false;
                } else {
                    proof {
                        lemma_taken_settles(eroded(now), (rolls - 1) as nat);
                    }
                    match removed.checked_add(round.1) {
                        Some(more) => {
                            removed = more;
                        },
                        None => {
                            return None;
                        },
                    }
                    grid = round.0;
                }
            },
            None => {
                return None;
            },
        }
    }
    Some(removed)
}

/// How many rolls of the grid that `text` shows are taken away until none
/// can be taken away any more.
pub fn parse_2(text: &str) -> (answer: i64)
    requires
        spec_answer_2(text.spec_bytes()) is Some,
    ensures
        Some(answer) == spec_answer_2(text.spec_bytes()),
{
    try_parse_2(text.as_bytes()).unwrap()
}

} // verus!

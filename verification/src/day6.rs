//! Sums and products that are written in columns.
//!
//! In the first reading, every line but one holds numbers, and one line
//! holds a sign for every column: the numbers of a column are added or
//! multiplied. In the second reading the text is read column by column, from
//! the right: every column holds one number, written downwards, and may hold
//! a sign below it, which ends a group of numbers.

use crate::text::{
    digits_end, lines, nonempty_lines, parse_digits, parse_i64, scan_digits, spec_parse_digits,
    spec_parse_i64, views,
};
use vstd::prelude::*;
use vstd::slice::slice_subrange;
use vstd::string::StringSliceAdditionalSpecFns;

verus! {

/// Whether a byte is white space.
pub open spec fn is_space(byte: u8) -> bool {
    byte == 32 || (9 <= byte <= 13)
}

/// How far the reading of a line has come: the words that are complete, and
/// the word that is being read.
pub struct Words {
    /// The complete words.
    pub done: Seq<Seq<u8>>,
    /// The word that is being read; empty between words.
    pub open: Seq<u8>,
}

/// The complete words, with the one that is being read if there is one.
pub open spec fn close(words: Words) -> Seq<Seq<u8>> {
    if words.open.len() > 0 {
        words.done.push(words.open)
    } else {
        words.done
    }
}

/// The reading of a line: its words are what stands between white space.
pub open spec fn scan_words(line: Seq<u8>) -> Words
    decreases line.len(),
{
    if line.len() == 0 {
        Words { done: Seq::empty(), open: Seq::empty() }
    } else {
        let before = scan_words(line.drop_last());
        if is_space(line.last()) {
            Words { done: close(before), open: Seq::empty() }
        } else {
            Words { done: before.done, open: before.open.push(line.last()) }
        }
    }
}

/// The words of a line.
pub open spec fn words_of(line: Seq<u8>) -> Seq<Seq<u8>> {
    close(scan_words(line))
}

/// The words as sequences.
pub open spec fn word_views(words: Seq<Vec<u8>>) -> Seq<Seq<u8>> {
    Seq::new(words.len(), |i: int| words[i]@)
}

/// Cuts a line into its words.
pub fn split_words(line: &[u8]) -> (words: Vec<Vec<u8>>)
    ensures
        word_views(words@) == words_of(line@),
{
    let mut words: Vec<Vec<u8>> = Vec::new();
    let mut open: Vec<u8> = Vec::new();
    let mut i: usize = 0;
    assert(line@.take(0) =~= Seq::<u8>::empty());
    assert(word_views(words@) =~= Seq::<Seq<u8>>::empty());
    while i < line.len()
        invariant
            i <= line@.len(),
            scan_words(line@.take(i as int)) == (Words { done: word_views(words@), open: open@ }),
        decreases line@.len() - i,
    {
        let byte = line[i];
        proof {
            let longer = line@.take(i + 1);
            assert(longer.drop_last() =~= line@.take(i as int));
            assert(longer.last() == byte);
        }
        if byte == 32 || (byte >= 9 && byte <= 13) {
            if open.len() > 0 {
                let ghost before = word_views(words@);
                let ghost word = open@;
                words.push(open);
                open = Vec::new();
                assert(word_views(words@) =~= before.push(word));
            }
            assert(open@ =~= Seq::<u8>::empty());
        } else {
            open.push(byte);
        }
        i += 1;
    }
    assert(line@.take(line@.len() as int) =~= line@);
    if open.len() > 0 {
        let ghost before = word_views(words@);
        let ghost word = open@;
        words.push(open);
        assert(word_views(words@) =~= before.push(word));
    }
    words
}

/// Whether a word is a sign of addition or multiplication.
pub open spec fn is_sign(word: Seq<u8>) -> bool {
    word.len() == 1 && (word[0] == 43 || word[0] == 42)
}

/// Whether a word is the sign of multiplication.
pub open spec fn is_times(word: Seq<u8>) -> bool {
    word.len() == 1 && word[0] == 42
}

/// What has been read of a text: rows of numbers, and for every column
/// whether its numbers are multiplied.
pub struct Sheet {
    /// The rows of numbers.
    pub nums: Seq<Seq<i64>>,
    /// Whether the numbers of a column are multiplied; they are added
    /// otherwise.
    pub ops: Seq<bool>,
}

/// What a row of words reads as, each word a number.
pub open spec fn spec_parse_row(words: Seq<Seq<u8>>) -> Option<Seq<i64>> {
    if forall|i: int| 0 <= i < words.len() ==> spec_parse_i64(#[trigger] words[i]) is Some {
        Some(Seq::new(words.len(), |i: int| spec_parse_i64(words[i])->0))
    } else {
        None
    }
}

/// What one more line adds: the signs of the columns if its first word is
/// one, a row of numbers otherwise. A line must hold a word.
pub open spec fn read_line(sheet: Sheet, line: Seq<u8>) -> Option<Sheet> {
    let words = words_of(line);
    if words.len() == 0 {
        None
    } else if is_sign(words[0]) {
        Some(Sheet { nums: sheet.nums, ops: Seq::new(words.len(), |i: int| is_times(words[i])) })
    } else {
        match spec_parse_row(words) {
            Some(row) => Some(Sheet { nums: sheet.nums.push(row), ops: sheet.ops }),
            None => None,
        }
    }
}

/// What the lines add up to.
pub open spec fn read_lines(found: Seq<Seq<u8>>) -> Option<Sheet>
    decreases found.len(),
{
    if found.len() == 0 {
        Some(Sheet { nums: Seq::empty(), ops: Seq::empty() })
    } else {
        match read_lines(found.drop_last()) {
            Some(sheet) => read_line(sheet, found.last()),
            None => None,
        }
    }
}

/// Once a line cannot be read, nothing comes of the text.
pub proof fn lemma_read_fails(found: Seq<Seq<u8>>, upto: int)
    requires
        0 <= upto <= found.len(),
        read_lines(found.take(upto)) is None,
    ensures
        read_lines(found) is None,
    decreases found.len() - upto,
{
    if upto < found.len() {
        let longer = found.take(upto + 1);
        assert(longer.drop_last() =~= found.take(upto));
        lemma_read_fails(found, upto + 1);
    } else {
        assert(found.take(upto) =~= found);
    }
}

/// The rows as sequences.
pub open spec fn row_views(nums: Seq<Vec<i64>>) -> Seq<Seq<i64>> {
    Seq::new(nums.len(), |i: int| nums[i]@)
}

/// What a text reads as.
pub open spec fn spec_parse_text(text: Seq<u8>) -> Option<Sheet> {
    read_lines(nonempty_lines(text))
}

/// Reads a row of numbers.
pub fn parse_row(words: &Vec<Vec<u8>>) -> (row: Option<Vec<i64>>)
    ensures
        row is Some <==> spec_parse_row(word_views(words@)) is Some,
        row matches Some(read) ==> read@ == spec_parse_row(word_views(words@))->0,
{
    let mut row: Vec<i64> = Vec::new();
    let mut i: usize = 0;
    while i < words.len()
        invariant
            i <= words@.len(),
            row@.len() == i,
            forall|j: int|
                0 <= j < i ==> spec_parse_i64(#[trigger] word_views(words@)[j]) == Some(row@[j]),
        decreases words@.len() - i,
    {
        assert(word_views(words@)[i as int] == words@[i as int]@);
        match parse_i64(words[i].as_slice()) {
            Some(number) => {
                row.push(number);
            },
            None => {
                return None;
            },
        }
        i += 1;
    }
    assert(row@ =~= spec_parse_row(word_views(words@))->0);
    Some(row)
}

/// Reads the rows of numbers and the signs that a text holds.
pub fn parse_text(text: &[u8]) -> (read: Option<(Vec<Vec<i64>>, Vec<bool>)>)
    ensures
        read is Some <==> spec_parse_text(text@) is Some,
        read matches Some(pair) ==> spec_parse_text(text@) == Some(
            Sheet { nums: row_views(pair.0@), ops: pair.1@ },
        ),
{
    let found = lines(text);
    let mut nums: Vec<Vec<i64>> = Vec::new();
    let mut ops: Vec<bool> = Vec::new();
    let mut i: usize = 0;
    let ghost all = nonempty_lines(text@);
    assert(all.take(0) =~= Seq::<Seq<u8>>::empty());
    assert(row_views(nums@) =~= Seq::<Seq<i64>>::empty());
    while i < found.len()
        invariant
            i <= found@.len(),
            views(found@) == all,
            all == nonempty_lines(text@),
            read_lines(all.take(i as int)) == Some(Sheet { nums: row_views(nums@), ops: ops@ }),
        decreases found@.len() - i,
    {
        let line = found[i];
        proof {
            let longer = all.take(i + 1);
            assert(longer.drop_last() =~= all.take(i as int));
            assert(longer.last() == line@);
            if read_lines(longer) is None {
                lemma_read_fails(all, i + 1);
            }
        }
        let words = split_words(line);
        if words.len() == 0 {
            return None;
        }
        assert(word_views(words@)[0] == words@[0]@);
        if words[0].len() == 1 && (words[0][0] == 43 || words[0][0] == 42) {
            let mut signs: Vec<bool> = Vec::new();
            let mut k: usize = 0;
            while k < words.len()
                invariant
                    k <= words@.len(),
                    signs@.len() == k,
                    forall|j: int| 0 <= j < k ==> signs@[j] == is_times(word_views(words@)[j]),
                decreases words@.len() - k,
            {
                assert(word_views(words@)[k as int] == words@[k as int]@);
                signs.push(words[k].len() == 1 && words[k][0] == 42);
                k += 1;
            }
            assert(signs@ =~= Seq::new(
                words_of(line@).len(),
                |i: int| is_times(words_of(line@)[i]),
            ));
            ops = signs;
        } else {
            match parse_row(&words) {
                Some(row) => {
                    let ghost before = row_views(nums@);
                    let ghost added = row@;
                    nums.push(row);
                    assert(row_views(nums@) =~= before.push(added));
                },
                None => {
                    return None;
                },
            }
        }
        i += 1;
    }
    assert(all.take(all.len() as int) =~= all);
    Some((nums, ops))
}

/// Two numbers added or multiplied, if the result fits an `i64`.
pub open spec fn combine(times: bool, a: i64, b: i64) -> Option<i64> {
    let result = if times {
        a * b
    } else {
        a + b
    };
    if i64::MIN <= result <= i64::MAX {
        Some(result as i64)
    } else {
        None
    }
}

/// The numbers of a column in the first `rows` rows, added or multiplied
/// from the top down. There is none without a row, or if a row does not
/// reach the column.
pub open spec fn column_value(nums: Seq<Seq<i64>>, col: int, times: bool, rows: int) -> Option<i64>
    decreases rows,
{
    if rows <= 0 || col >= nums[rows - 1].len() {
        None
    } else if rows == 1 {
        Some(nums[0][col])
    } else {
        match column_value(nums, col, times, rows - 1) {
            Some(above) => combine(times, above, nums[rows - 1][col]),
            None => None,
        }
    }
}

/// The sum of the values of the first `cols` columns.
pub open spec fn columns_sum(sheet: Sheet, cols: int) -> Option<i64>
    decreases cols,
{
    if cols <= 0 {
        Some(0)
    } else {
        match (
            columns_sum(sheet, cols - 1),
            column_value(sheet.nums, cols - 1, sheet.ops[cols - 1], sheet.nums.len() as int),
        ) {
            (Some(sum), Some(value)) => combine(false, sum, value),
            _ => None,
        }
    }
}

/// The answer to the first part: the sum of what the columns come to.
pub open spec fn spec_answer_1(text: Seq<u8>) -> Option<i64> {
    match spec_parse_text(text) {
        Some(sheet) => columns_sum(sheet, sheet.ops.len() as int),
        None => None,
    }
}

/// Adds or multiplies two numbers.
pub fn apply(times: bool, a: i64, b: i64) -> (result: Option<i64>)
    ensures
        result == combine(times, a, b),
{
    if times {
        a.checked_mul(b)
    } else {
        a.checked_add(b)
    }
}

/// Adds up what the columns come to.
pub fn try_parse_1(text: &[u8]) -> (answer: Option<i64>)
    ensures
        answer == spec_answer_1(text@),
{
    match parse_text(text) {
        Some(pair) => {
            let nums = pair.0;
            let ops = pair.1;
            let ghost sheet = Sheet { nums: row_views(nums@), ops: ops@ };
            let mut sum: Option<i64> = Some(0);
            let mut col: usize = 0;
            while col < ops.len()
                invariant
                    col <= ops@.len(),
                    sheet == (Sheet { nums: row_views(nums@), ops: ops@ }),
                    sum == columns_sum(sheet, col as int),
                decreases ops@.len() - col,
            {
                let times = ops[col];
                let mut value: Option<i64> = None;
                let mut row: usize = 0;
                let mut broken = false;
                while row < nums.len()
                    invariant
                        row <= nums@.len(),
                        col < ops@.len(),
                        sheet == (Sheet { nums: row_views(nums@), ops: ops@ }),
                        !broken ==> value == column_value(sheet.nums, col as int, times, row as int),
                        broken ==> column_value(sheet.nums, col as int, times, row as int) is None
                            && row > 0,
                        broken ==> value is None,
                    decreases nums@.len() - row,
                {
                    assert(sheet.nums[row as int] == nums@[row as int]@);
                    if !broken {
                        if col >= nums[row].len() {
                            broken = true;
                            value = None;
                        } else if row == 0 {
                            value = Some(nums[row][col]);
                        } else {
                            value = match value {
                                Some(above) => apply(times, above, nums[row][col]),
                                None => None,
                            };
                            if value.is_none() {
                                broken = true;
                            }
                        }
                    }
                    row += 1;
                }
                sum = match (sum, value) {
                    (Some(total), Some(v)) => apply(false, total, v),
                    _ => None,
                };
                col += 1;
            }
            sum
        },
        None => None,
    }
}

/// The sum of what the columns in `text` come to.
pub fn parse_1(text: &str) -> (answer: i64)
    requires
        spec_answer_1(text.spec_bytes()) is Some,
    ensures
        Some(answer) == spec_answer_1(text.spec_bytes()),
{
    try_parse_1(text.as_bytes()).unwrap()
}

/// The grid has a first row, no row is shorter than the first, and within
/// the width of the first row every sign is a plain one.
pub open spec fn well_formed(grid: Seq<Seq<u8>>) -> bool {
    &&& grid.len() > 0
    &&& forall|r: int| 0 <= r < grid.len() ==> (#[trigger] grid[r]).len() >= grid[0].len()
    &&& forall|r: int, c: int|
        0 <= r < grid.len() && 0 <= c < grid[0].len() ==> #[trigger] grid[r][c] < 128
}

/// The signs of a column, from the top down.
pub open spec fn column(grid: Seq<Seq<u8>>, c: int) -> Seq<u8> {
    Seq::new(grid.len(), |r: int| grid[r][c])
}

/// Where the first digit at or after `from` stands, or the length of the
/// column.
pub open spec fn first_digit(col: Seq<u8>, from: int) -> int
    decreases col.len() - from,
{
    if from < 0 || from >= col.len() || (48 <= col[from] <= 57) {
        from
    } else {
        first_digit(col, from + 1)
    }
}

/// Where the white space that begins at `from` ends.
pub open spec fn space_end(col: Seq<u8>, from: int) -> int
    decreases col.len() - from,
{
    if 0 <= from < col.len() && is_space(col[from]) {
        space_end(col, from + 1)
    } else {
        from
    }
}

/// What a column holds: a number, and perhaps a sign.
pub struct Entry {
    /// The number.
    pub value: i64,
    /// Whether a sign follows the number.
    pub signed: bool,
    /// Whether the sign is that of multiplication.
    pub times: bool,
}

/// What a column reads as: nothing if it holds no digit; else its first
/// number, with the sign that follows it after white space if one does. The
/// reading fails if the number does not fit an `i64`.
pub open spec fn spec_read_column(col: Seq<u8>) -> Option<Option<Entry>> {
    let at = first_digit(col, 0);
    let end = digits_end(col, at);
    let sign = space_end(col, end);
    if at >= col.len() {
        Some(None)
    } else {
        match spec_parse_digits(col.subrange(at, end), 0x7fff_ffff_ffff_ffff) {
            Some(value) => Some(
                Some(
                    Entry {
                        value: value as i64,
                        signed: sign < col.len() && (col[sign] == 42 || col[sign] == 43),
                        times: sign < col.len() && col[sign] == 42,
                    },
                ),
            ),
            None => None,
        }
    }
}

/// Reads a column.
pub fn read_column(col: &[u8]) -> (read: Option<Option<Entry>>)
    ensures
        read == spec_read_column(col@),
{
    let mut at: usize = 0;
    while at < col.len() && !(col[at] >= 48 && col[at] <= 57)
        invariant
            at <= col@.len(),
            first_digit(col@, 0) == first_digit(col@, at as int),
        decreases col@.len() - at,
    {
        at += 1;
    }
    if at >= col.len() {
        return Some(None);
    }
    let end = scan_digits(col, at);
    let digits = slice_subrange(col, at, end);
    let mut sign: usize = end;
    while sign < col.len() && (col[sign] == 32 || (col[sign] >= 9 && col[sign] <= 13))
        invariant
            end <= sign <= col@.len(),
            space_end(col@, end as int) == space_end(col@, sign as int),
        decreases col@.len() - sign,
    {
        sign += 1;
    }
    match parse_digits(digits, 0x7fff_ffff_ffff_ffff) {
        Some(value) => Some(
            Some(
                Entry {
                    value: value as i64,
                    signed: sign < col.len() && (col[sign] == 42 || col[sign] == 43),
                    times: sign < col.len() && col[sign] == 42,
                },
            ),
        ),
        None => None,
    }
}

/// The numbers added or multiplied from the first on, beginning with zero
/// or one.
pub open spec fn fold_all(args: Seq<i64>, times: bool) -> Option<i64>
    decreases args.len(),
{
    if args.len() == 0 {
        Some(if times {
            1i64
        } else {
            0i64
        })
    } else {
        match fold_all(args.drop_last(), times) {
            Some(before) => combine(times, before, args.last()),
            None => None,
        }
    }
}

/// Adds or multiplies the numbers.
pub fn fold(args: &Vec<i64>, times: bool) -> (result: Option<i64>)
    ensures
        result == fold_all(args@, times),
{
    let mut result: Option<i64> = Some(if times {
        1
    } else {
        0
    });
    let mut i: usize = 0;
    assert(args@.take(0) =~= Seq::<i64>::empty());
    while i < args.len()
        invariant
            i <= args@.len(),
            result == fold_all(args@.take(i as int), times),
        decreases args@.len() - i,
    {
        proof {
            let longer = args@.take(i + 1);
            assert(longer.drop_last() =~= args@.take(i as int));
            assert(longer.last() == args@[i as int]);
        }
        result = match result {
            Some(before) => apply(times, before, args[i]),
            None => None,
        };
        i += 1;
    }
    assert(args@.take(args@.len() as int) =~= args@);
    result
}

/// The numbers that wait for their sign, and the sum of the groups that
/// have had theirs.
pub struct Tally {
    /// The numbers that wait for their sign.
    pub args: Seq<i64>,
    /// The sum of the groups.
    pub total: i64,
}

/// The tally after one more column.
pub open spec fn tally_step(tally: Tally, col: Seq<u8>) -> Option<Tally> {
    match spec_read_column(col) {
        Some(Some(entry)) => {
            let args = tally.args.push(entry.value);
            if entry.signed {
                match fold_all(args, entry.times) {
                    Some(group) => match combine(false, tally.total, group) {
                        Some(total) => Some(Tally { args: Seq::empty(), total }),
                        None => None,
                    },
                    None => None,
                }
            } else {
                Some(Tally { args, total: tally.total })
            }
        },
        Some(None) => Some(tally),
        None => None,
    }
}

/// The tally after the `n` columns on the right, read from the right.
pub open spec fn tally_after(grid: Seq<Seq<u8>>, n: int) -> Option<Tally>
    decreases n,
{
    if n <= 0 {
        Some(Tally { args: Seq::empty(), total: 0 })
    } else {
        match tally_after(grid, n - 1) {
            Some(tally) => tally_step(tally, column(grid, grid[0].len() - n)),
            None => None,
        }
    }
}

/// The answer to the second part: the sum of the groups, read column by
/// column from the right.
pub open spec fn spec_answer_2(text: Seq<u8>) -> Option<i64> {
    let grid = nonempty_lines(text);
    if well_formed(grid) {
        match tally_after(grid, grid[0].len() as int) {
            Some(tally) => Some(tally.total),
            None => None,
        }
    } else {
        None
    }
}

/// Whether the grid is well formed.
pub fn is_well_formed(grid: &Vec<&[u8]>) -> (good: bool)
    ensures
        good == well_formed(views(grid@)),
{
    if grid.len() == 0 {
        return false;
    }
    assert(views(grid@)[0] == grid@[0]@);
    let width = grid[0].len();
    let mut r: usize = 0;
    while r < grid.len()
        invariant
            r <= grid@.len(),
            grid@.len() > 0,
            width == views(grid@)[0].len(),
            forall|i: int| 0 <= i < r ==> (#[trigger] views(grid@)[i]).len() >= width,
            forall|i: int, c: int|
                0 <= i < r && 0 <= c < width ==> #[trigger] views(grid@)[i][c] < 128,
        decreases grid@.len() - r,
    {
        let row = grid[r];
        assert(views(grid@)[r as int] == row@);
        if row.len() < width {
            return false;
        }
        let mut c: usize = 0;
        while c < width
            invariant
                c <= width <= row@.len(),
                r < grid@.len(),
                width == views(grid@)[0].len(),
                views(grid@)[r as int] == row@,
                forall|k: int| 0 <= k < c ==> row@[k] < 128,
            decreases width - c,
        {
            if row[c] >= 128 {
                assert(views(grid@)[r as int][c as int] >= 128);
                return false;
            }
            c += 1;
        }
        r += 1;
    }
    true
}

/// Adds up the groups, reading column by column from the right.
pub fn try_parse_2(text: &[u8]) -> (answer: Option<i64>)
    ensures
        answer == spec_answer_2(text@),
{
    let grid = lines(text);
    let ghost rows = nonempty_lines(text@);
    if !is_well_formed(&grid) {
        return None;
    }
    assert(rows[0] == grid@[0]@);
    let width = grid[0].len();
    let mut total: i64 = 0;
    let mut args: Vec<i64> = Vec::new();
    let mut failed = false;
    let mut n: usize = 0;
    while n < width
        invariant
            n <= width,
            rows == nonempty_lines(text@),
            views(grid@) == rows,
            well_formed(rows),
            width == rows[0].len(),
            failed ==> tally_after(rows, n as int) is None,
            !failed ==> tally_after(rows, n as int) == Some(Tally { args: args@, total }),
        decreases width - n,
    {
        let c = width - n - 1;
        let mut col: Vec<u8> = Vec::new();
        let mut r: usize = 0;
        while r < grid.len()
            invariant
                r <= grid@.len(),
                views(grid@) == rows,
                well_formed(rows),
                width == rows[0].len(),
                c < width,
                col@.len() == r,
                forall|i: int| 0 <= i < r ==> col@[i] == rows[i][c as int],
            decreases grid@.len() - r,
        {
            assert(rows[r as int] == grid@[r as int]@);
            col.push(grid[r][c]);
            r += 1;
        }
        assert(col@ =~= column(rows, c as int));
        if !failed {
            match read_column(col.as_slice()) {
                Some(Some(entry)) => {
                    args.push(entry.value);
                    if entry.signed {
                        match fold(&args, entry.times) {
                            Some(group) => match apply(false, total, group) {
                                Some(more) => {
                                    total = more;
                                    args = Vec::new();
                                },
                                None => {
                                    failed = true;
                                },
                            },
                            None => {
                                failed = true;
                            },
                        }
                    }
                },
                Some(None) => {},
                None => {
                    failed = true;
                },
            }
        }
        n += 1;
    }
    if failed {
        None
    } else {
        Some(total)
    }
}

/// The sum of the groups in `text`, read column by column from the right.
pub fn parse_2(text: &str) -> (answer: i64)
    requires
        spec_answer_2(text.spec_bytes()) is Some,
    ensures
        Some(answer) == spec_answer_2(text.spec_bytes()),
{
    try_parse_2(text.as_bytes()).unwrap()
}

} // verus!

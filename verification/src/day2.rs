//! Ranges of product numbers, and the numbers in them that are made of a
//! repeated run of digits.
//!
//! The text holds ranges, two numbers with a hyphen between them, that are
//! separated by commas.

use crate::text::{
    find_range, lemma_pow10, lines, nonempty_lines, parse_digits, pow10, spec_find_range,
    spec_parse_digits, split, split_fields, ten_pow, views,
};
use vstd::prelude::*;
use vstd::slice::slice_subrange;
use vstd::string::StringSliceAdditionalSpecFns;

verus! {

/// A range: its first and its last number.
pub type Range = (i64, i64);

/// What a piece of text reads as: the first range in it, if there is one
/// and both of its numbers fit an `i64`.
pub open spec fn spec_parse_range(piece: Seq<u8>) -> Option<Range> {
    match spec_find_range(piece) {
        Some(places) => {
            let first = spec_parse_digits(
                piece.subrange(places.0, places.1),
                0x7fff_ffff_ffff_ffff,
            );
            let second = spec_parse_digits(
                piece.subrange(places.1 + 1, places.2),
                0x7fff_ffff_ffff_ffff,
            );
            if first is Some && second is Some {
                Some((first->0 as i64, second->0 as i64))
            } else {
                None
            }
        },
        None => None,
    }
}

/// Reads the range that a piece of text holds.
pub fn parse_range(piece: &[u8]) -> (range: Option<Range>)
    ensures
        range == spec_parse_range(piece@),
{
    match find_range(piece) {
        Some(places) => {
            let first = slice_subrange(piece, places.0, places.1);
            let second = slice_subrange(piece, places.1 + 1, places.2);
            match parse_digits(first, 0x7fff_ffff_ffff_ffff) {
                Some(lo) => match parse_digits(second, 0x7fff_ffff_ffff_ffff) {
                    Some(hi) => Some((lo as i64, hi as i64)),
                    None => None,
                },
                None => None,
            }
        },
        None => None,
    }
}

/// The ranges read so far with those of one more line, which holds a range
/// in each of its pieces between commas.
pub open spec fn read_pieces(ranges: Seq<Range>, pieces: Seq<Seq<u8>>) -> Option<Seq<Range>>
    decreases pieces.len(),
{
    if pieces.len() == 0 {
        Some(ranges)
    } else {
        match (read_pieces(ranges, pieces.drop_last()), spec_parse_range(pieces.last())) {
            (Some(before), Some(range)) => Some(before.push(range)),
            _ => None,
        }
    }
}

/// The ranges of the lines.
pub open spec fn read_lines(found: Seq<Seq<u8>>) -> Option<Seq<Range>>
    decreases found.len(),
{
    if found.len() == 0 {
        Some(Seq::empty())
    } else {
        match read_lines(found.drop_last()) {
            Some(ranges) => read_pieces(ranges, split(found.last(), 44)),
            None => None,
        }
    }
}

/// Once a piece cannot be read, nothing comes of the line.
pub proof fn lemma_pieces_fail(ranges: Seq<Range>, pieces: Seq<Seq<u8>>, upto: int)
    requires
        0 <= upto <= pieces.len(),
        read_pieces(ranges, pieces.take(upto)) is None,
    ensures
        read_pieces(ranges, pieces) is None,
    decreases pieces.len() - upto,
{
    if upto < pieces.len() {
        let longer = pieces.take(upto + 1);
        assert(longer.drop_last() =~= pieces.take(upto));
        lemma_pieces_fail(ranges, pieces, upto + 1);
    } else {
        assert(pieces.take(upto) =~= pieces);
    }
}

/// Once a line cannot be read, nothing comes of the text.
pub proof fn lemma_lines_fail(found: Seq<Seq<u8>>, upto: int)
    requires
        0 <= upto <= found.len(),
        read_lines(found.take(upto)) is None,
    ensures
        read_lines(found) is None,
    decreases found.len() - upto,
{
    if upto < found.len() {
        let longer = found.take(upto + 1);
        assert(longer.drop_last() =~= found.take(upto));
        lemma_lines_fail(found, upto + 1);
    } else {
        assert(found.take(upto) =~= found);
    }
}

/// What a text reads as: its ranges.
pub open spec fn spec_parse_text(text: Seq<u8>) -> Option<Seq<Range>> {
    read_lines(nonempty_lines(text))
}

/// Reads the ranges that a text holds.
pub fn parse_text(text: &[u8]) -> (ranges: Option<Vec<Range>>)
    ensures
        ranges is Some <==> spec_parse_text(text@) is Some,
        ranges matches Some(read) ==> Some(read@) == spec_parse_text(text@),
{
    let found = lines(text);
    let ghost all = nonempty_lines(text@);
    let mut ranges: Vec<Range> = Vec::new();
    let mut i: usize = 0;
    assert(all.take(0) =~= Seq::<Seq<u8>>::empty());
    while i < found.len()
        invariant
            i <= found@.len(),
            views(found@) == all,
            all == nonempty_lines(text@),
            read_lines(all.take(i as int)) == Some(ranges@),
        decreases found@.len() - i,
    {
        let line = found[i];
        let ghost before = ranges@;
        proof {
            let longer = all.take(i + 1);
            assert(longer.drop_last() =~= all.take(i as int));
            assert(longer.last() == line@);
        }
        let pieces = split_fields(line, 44);
        let ghost parts = split(line@, 44);
        let mut k: usize = 0;
        assert(parts.take(0) =~= Seq::<Seq<u8>>::empty());
        while k < pieces.len()
            invariant
                k <= pieces@.len(),
                i < found@.len(),
                views(pieces@) == parts,
                parts == split(line@, 44),
                all == nonempty_lines(text@),
                all[i as int] == line@,
                i < all.len(),
                read_lines(all.take(i as int)) == Some(before),
                read_pieces(before, parts.take(k as int)) == Some(ranges@),
            decreases pieces@.len() - k,
        {
            proof {
                let longer = parts.take(k + 1);
                assert(longer.drop_last() =~= parts.take(k as int));
                assert(longer.last() == pieces@[k as int]@);
            }
            match parse_range(pieces[k]) {
                Some(range) => {
                    ranges.push(range);
                },
                None => {
                    proof {
                        lemma_pieces_fail(before, parts, k + 1);
                        let longer = all.take(i + 1);
                        assert(longer.drop_last() =~= all.take(i as int));
                        assert(longer.last() == line@);
                        lemma_lines_fail(all, i + 1);
                    }
                    return None;
                },
            }
            k += 1;
        }
        assert(parts.take(parts.len() as int) =~= parts);
        i += 1;
    }
    assert(all.take(all.len() as int) =~= all);
    Some(ranges)
}

/// How many digits write a number; a number below ten counts as one digit.
pub open spec fn spec_count_digits(n: int) -> nat
    decreases n,
{
    if n <= 9 {
        1
    } else {
        1 + spec_count_digits(n / 10)
    }
}

/// A number below ten to the power of `k` has at most `k` digits.
pub proof fn lemma_digits_bound(n: int, k: nat)
    requires
        1 <= k <= 19,
        k <= 18 ==> n < pow10(k),
        k == 19 ==> n <= i64::MAX,
    ensures
        spec_count_digits(n) <= k,
    decreases k,
{
    if n > 9 {
        if k == 19 {
            lemma_pow10(18);
            lemma_digits_bound(n / 10, 18);
        } else {
            lemma_pow10(k);
            if k == 1 {
                reveal_with_fuel(pow10, 2);
            } else {
                lemma_pow10((k - 1) as nat);
                lemma_digits_bound(n / 10, (k - 1) as nat);
            }
        }
    }
}

/// How many digits write a number.
pub fn count_digits(n: i64) -> (d: u32)
    ensures
        d == spec_count_digits(n as int),
        1 <= d <= 19,
        d >= 2 ==> n >= 10,
{
    let mut d: u32 = 1;
    let mut rest: i64 = n;
    proof {
        lemma_digits_bound(n as int, 19);
    }
    while rest > 9
        invariant
            d + spec_count_digits(rest as int) == spec_count_digits(n as int) + 1,
            spec_count_digits(n as int) <= 19,
            1 <= d,
            d >= 2 ==> n >= 10,
            rest <= n,
        decreases rest,
    {
        d += 1;
        rest = rest / 10;
    }
    d
}

/// The number that `top` writes twice in a row, where `mid` is the power of
/// ten with as many zeros as `top` has digits.
pub open spec fn doubled(top: int, mid: int) -> int {
    top * mid + top
}

/// The sum of the doubled numbers from `from` up to, not including, `to`.
pub open spec fn doubles_sum(from: int, to: int, mid: int) -> int
    decreases to - from,
{
    if from >= to {
        0
    } else {
        doubles_sum(from, to - 1, mid) + doubled(to - 1, mid)
    }
}

/// The sum of the doubled numbers between `lo` and `hi`, which are both to
/// have the same number of digits: none if that number is odd; else those
/// whose halves lie between the upper halves of `lo` and `hi`, the first and
/// the last of them only if they lie within the range. There is no answer if
/// `lo` is not below `hi`, if they differ in their number of digits, or if
/// the sum does not fit an `i64`.
pub open spec fn same_sum(lo: int, hi: int) -> Option<int> {
    let d = spec_count_digits(lo);
    let mid = pow10(d / 2);
    let top_lo = lo / mid;
    let top_hi = hi / mid;
    let bot_lo = lo % mid;
    let bot_hi = hi % mid;
    let invals = if top_lo == top_hi {
        if bot_lo <= top_lo <= bot_hi {
            doubled(top_lo, mid)
        } else {
            0
        }
    } else {
        (if bot_lo <= top_lo {
            doubled(top_lo, mid)
        } else {
            0
        }) + doubles_sum(top_lo + 1, top_hi, mid) + (if top_hi <= bot_hi {
            doubled(top_hi, mid)
        } else {
            0
        })
    };
    if !(lo < hi) || spec_count_digits(hi) != d {
        None
    } else if d % 2 == 1 {
        Some(0)
    } else if invals <= i64::MAX {
        Some(invals)
    } else {
        None
    }
}

/// The sum of the doubled numbers between `lo` and `hi`. A range whose last
/// number has one digit more than its first is cut where the number of digits
/// changes. There is no answer if `lo` is not below `hi`, if `hi` has two
/// digits more than `lo` or more, or if a part has no answer.
pub open spec fn spec_sum_inval(lo: int, hi: int) -> Option<int> {
    let lo_digits = spec_count_digits(lo);
    let hi_digits = spec_count_digits(hi);
    if !(lo < hi) || lo_digits + 1 < hi_digits {
        None
    } else if lo_digits < hi_digits {
        match (same_sum(lo, pow10(lo_digits) - 1), same_sum(pow10(lo_digits), hi)) {
            (Some(below), Some(above)) => if below + above <= i64::MAX {
                Some(below + above)
            } else {
                None
            },
            _ => None,
        }
    } else {
        same_sum(lo, hi)
    }
}

/// Doubled numbers of natural numbers are natural, and so are their sums,
/// which grow with the range.
pub proof fn lemma_doubles(from: int, to: int, further: int, mid: int)
    requires
        0 <= from,
        1 <= mid,
        to <= further,
    ensures
        0 <= doubles_sum(from, to, mid) <= doubles_sum(from, further, mid),
    decreases further - from,
{
    if from < further {
        if to < further {
            lemma_doubles(from, to, further - 1, mid);
        } else {
            lemma_doubles(from, to - 1, further - 1, mid);
        }
        assert(0 <= (further - 1) * mid) by (nonlinear_arith)
            requires
                0 <= further - 1,
                1 <= mid,
        ;
    }
}

/// The doubled number of `top`, which fits an `i128`.
pub fn double(top: i64, mid: i64) -> (both: i128)
    requires
        0 <= top,
        1 <= mid,
    ensures
        both == doubled(top as int, mid as int),
        both >= 0,
{
    assert(0 <= top * mid <= 0x7fff_ffff_ffff_ffff * 0x7fff_ffff_ffff_ffff) by (nonlinear_arith)
        requires
            0 <= top <= 0x7fff_ffff_ffff_ffff,
            1 <= mid <= 0x7fff_ffff_ffff_ffff,
    ;
    top as i128 * mid as i128 + top as i128
}

/// Adds a doubled number to a sum, if the new sum fits an `i64`.
pub fn add_double(sum: i64, both: i128) -> (more: Option<i64>)
    requires
        0 <= sum,
        0 <= both,
    ensures
        more matches Some(s) ==> s == sum + both,
        more is None ==> sum + both > i64::MAX,
{
    if both > (i64::MAX - sum) as i128 {
        None
    } else {
        Some(sum + both as i64)
    }
}

/// The sum of the doubled numbers between two numbers of as many digits.
pub fn sum_same(lo: i64, hi: i64) -> (sum: Option<i64>)
    ensures
        sum matches Some(s) ==> same_sum(lo as int, hi as int) == Some(s as int),
        sum is None ==> same_sum(lo as int, hi as int) is None,
{
    if !(lo < hi) {
        return None;
    }
    let d = count_digits(lo);
    if count_digits(hi) != d {
        return None;
    }
    if d % 2 == 1 {
        return Some(0);
    }
    proof {
        lemma_pow10((d / 2) as nat);
    }
    let mid_pow = ten_pow(d / 2);
    let top_lo = lo / mid_pow;
    let top_hi = hi / mid_pow;
    let bot_lo = lo % mid_pow;
    let bot_hi = hi % mid_pow;
    let ghost mid = mid_pow as int;
    if top_lo == top_hi {
        if bot_lo <= top_lo && top_lo <= bot_hi {
            add_double(0, double(top_lo, mid_pow))
        } else {
            Some(0)
        }
    } else {
        assert(top_lo <= top_hi) by (nonlinear_arith)
            requires
                top_lo == lo as int / mid,
                top_hi == hi as int / mid,
                lo < hi,
                mid >= 1,
        ;
        let mut invals: i64 = 0;
        proof {
            lemma_doubles(top_lo + 1, top_lo + 1, top_hi as int, mid);
        }
        if bot_lo <= top_lo {
            match add_double(invals, double(top_lo, mid_pow)) {
                Some(more) => {
                    invals = more;
                },
                None => {
                    return None;
                },
            }
        }
        let ghost left = invals as int;
        let mut top: i64 = top_lo + 1;
        while top < top_hi
            invariant
                top_lo + 1 <= top <= top_hi,
                0 <= top_lo,
                1 <= mid_pow,
                mid == mid_pow,
                0 <= left,
                invals == left + doubles_sum(top_lo + 1, top as int, mid),
                0 <= invals,
                lo < hi,
                spec_count_digits(hi as int) == spec_count_digits(lo as int),
                spec_count_digits(lo as int) % 2 == 0,
                mid == pow10(spec_count_digits(lo as int) / 2),
                top_lo == lo as int / mid,
                top_hi == hi as int / mid,
                top_lo != top_hi,
                left == (if lo as int % mid <= top_lo {
                    doubled(top_lo as int, mid)
                } else {
                    0
                }),
            decreases top_hi - top,
        {
            proof {
                lemma_doubles(top_lo + 1, top + 1, top_hi as int, mid);
                lemma_doubles(top_lo + 1, top as int, top as int, mid);
                assert(0 <= top_hi * mid) by (nonlinear_arith)
                    requires
                        0 <= top_hi,
                        1 <= mid,
                ;
            }
            match add_double(invals, double(top, mid_pow)) {
                Some(more) => {
                    invals = more;
                },
                None => {
                    return None;
                },
            }
            top += 1;
        }
        if top_hi <= bot_hi {
            add_double(invals, double(top_hi, mid_pow))
        } else {
            Some(invals)
        }
    }
}

/// The sum of the doubled numbers between `lo` and `hi`, or `None` where
/// there is no answer.
pub fn try_sum_inval(lo: i64, hi: i64) -> (sum: Option<i64>)
    ensures
        sum matches Some(s) ==> spec_sum_inval(lo as int, hi as int) == Some(s as int),
        sum is None ==> spec_sum_inval(lo as int, hi as int) is None,
{
    if !(lo < hi) {
        return None;
    }
    let lo_digits = count_digits(lo);
    let hi_digits = count_digits(hi);
    if lo_digits + 1 < hi_digits {
        return None;
    }
    if lo_digits < hi_digits {
        proof {
            lemma_pow10(lo_digits as nat);
        }
        let cut = ten_pow(lo_digits);
        match (sum_same(lo, cut - 1), sum_same(cut, hi)) {
            (Some(below), Some(above)) => below.checked_add(above),
            _ => None,
        }
    } else {
        sum_same(lo, hi)
    }
}

/// The sum of the doubled numbers between `lo` and `hi`.
pub fn sum_inval(lo: i64, hi: i64) -> (sum: i64)
    requires
        spec_sum_inval(lo as int, hi as int) is Some,
    ensures
        spec_sum_inval(lo as int, hi as int) == Some(sum as int),
{
    try_sum_inval(lo, hi).unwrap()
}

/// The sums of the ranges added up, where `sums` says what a range comes
/// to. There is no answer if a range has none or the sum does not fit an
/// `i64`.
pub open spec fn total_of(ranges: Seq<Range>, sums: spec_fn(int, int) -> Option<int>) -> Option<
    int,
>
    decreases ranges.len(),
{
    if ranges.len() == 0 {
        Some(0)
    } else {
        match (
            total_of(ranges.drop_last(), sums),
            sums(ranges.last().0 as int, ranges.last().1 as int),
        ) {
            (Some(before), Some(here)) => if i64::MIN <= before + here <= i64::MAX {
                Some(before + here)
            } else {
                None
            },
            _ => None,
        }
    }
}

/// The answer to the first part: the sum of the doubled numbers in the
/// ranges of the text.
pub open spec fn spec_answer_1(text: Seq<u8>) -> Option<i64> {
    match spec_parse_text(text) {
        Some(ranges) => match total_of(ranges, |lo: int, hi: int| spec_sum_inval(lo, hi)) {
            Some(total) => Some(total as i64),
            None => None,
        },
        None => None,
    }
}

/// Adds up the doubled numbers in the ranges of the text.
pub fn try_parse_1(text: &[u8]) -> (answer: Option<i64>)
    ensures
        answer == spec_answer_1(text@),
{
    match parse_text(text) {
        Some(ranges) => {
            let ghost sums = |lo: int, hi: int| spec_sum_inval(lo, hi);
            let mut total: Option<i64> = Some(0);
            let mut i: usize = 0;
            assert(ranges@.take(0) =~= Seq::<Range>::empty());
            while i < ranges.len()
                invariant
                    i <= ranges@.len(),
                    sums == |lo: int, hi: int| spec_sum_inval(lo, hi),
                    total is Some ==> total_of(ranges@.take(i as int), sums) == Some(
                        total->0 as int,
                    ),
                    total is None ==> total_of(ranges@.take(i as int), sums) is None,
                decreases ranges@.len() - i,
            {
                proof {
                    let longer = ranges@.take(i + 1);
                    assert(longer.drop_last() =~= ranges@.take(i as int));
                    assert(longer.last() == ranges@[i as int]);
                }
                let range = ranges[i];
                total = match (total, try_sum_inval(range.0, range.1)) {
                    (Some(before), Some(here)) => before.checked_add(here),
                    _ => None,
                };
                i += 1;
            }
            assert(ranges@.take(ranges@.len() as int) =~= ranges@);
            total
        },
        None => None,
    }
}

/// The sum of the doubled numbers in the ranges of `text`.
pub fn parse_1(text: &str) -> (answer: i64)
    requires
        spec_answer_1(text.spec_bytes()) is Some,
    ensures
        Some(answer) == spec_answer_1(text.spec_bytes()),
{
    try_parse_1(text.as_bytes()).unwrap()
}

/// The digits of a natural number, the last one first.
pub open spec fn digits_of(n: int) -> Seq<u8>
    decreases n,
{
    if n <= 9 {
        seq![n as u8]
    } else {
        seq![(n % 10) as u8] + digits_of(n / 10)
    }
}

/// The digits repeat after every `period` places, and are whole runs of
/// that length.
pub open spec fn periodic(digits: Seq<u8>, period: int) -> bool {
    &&& digits.len() as int % period == 0
    &&& forall|i: int| 0 <= i < digits.len() - period ==> digits[i] == #[trigger] digits[i + period]
}

/// Whether a number is written by a run of digits that is repeated, twice
/// or more often.
pub open spec fn spec_is_inval2(n: int) -> bool {
    n >= 0 && exists|period: int|
        1 <= period <= digits_of(n).len() / 2 && #[trigger] periodic(digits_of(n), period)
}

/// The digits of a natural number, the last one first.
pub fn digits(n: i64) -> (found: Vec<u8>)
    requires
        n >= 0,
    ensures
        found@ == digits_of(n as int),
{
    let mut found: Vec<u8> = Vec::new();
    let mut rest: i64 = n;
    while rest > 9
        invariant
            0 <= rest,
            found@ + digits_of(rest as int) == digits_of(n as int),
        decreases rest,
    {
        let ghost before = found@;
        found.push((rest % 10) as u8);
        proof {
            assert(before.push((rest % 10) as u8) + digits_of(rest as int / 10) =~= before + (
            seq![(rest % 10) as u8] + digits_of(rest as int / 10)));
        }
        rest = rest / 10;
    }
    let ghost before = found@;
    found.push(rest as u8);
    assert(found@ =~= before + seq![rest as u8]);
    found
}

/// Whether the digits repeat after every `period` places.
pub fn repeats(found: &Vec<u8>, period: usize) -> (yes: bool)
    requires
        1 <= period <= found@.len(),
    ensures
        yes == periodic(found@, period as int),
{
    if found.len() % period != 0 {
        return false;
    }
    let mut i: usize = 0;
    while i < found.len() - period
        invariant
            i <= found@.len() - period,
            1 <= period <= found@.len(),
            forall|j: int| 0 <= j < i ==> found@[j] == #[trigger] found@[j + period],
        decreases found@.len() - i,
    {
        if found[i] != found[i + period] {
            return false;
        }
        i += 1;
    }
    true
}

/// Whether a number is written by a run of digits that is repeated.
pub fn is_inval2(n: &i64) -> (yes: bool)
    ensures
        yes == spec_is_inval2(*n as int),
{
    if *n < 0 {
        return false;
    }
    let found = digits(*n);
    let s_len = found.len();
    let mut prefix_len: usize = 1;
    while prefix_len <= s_len / 2
        invariant
            1 <= prefix_len,
            s_len == found@.len(),
            found@ == digits_of(*n as int),
            forall|period: int| 1 <= period < prefix_len ==> !#[trigger] periodic(found@, period),
        decreases s_len - prefix_len,
    {
        if repeats(&found, prefix_len) {
            return true;
        }
        prefix_len += 1;
    }
    false
}

/// The sum of the repeated numbers from `lo` to `hi`.
pub open spec fn repeated_sum(lo: int, hi: int) -> int
    decreases hi - lo + 1,
{
    if lo > hi {
        0
    } else {
        repeated_sum(lo, hi - 1) + if spec_is_inval2(hi) {
            hi
        } else {
            0
        }
    }
}

/// The sum of the repeated numbers from `lo` to `hi`. There is no answer if
/// `hi` is the largest `i64` or the sum does not fit an `i64`.
pub open spec fn spec_sum_inval2(lo: int, hi: int) -> Option<int> {
    if hi >= i64::MAX || repeated_sum(lo, hi) > i64::MAX {
        None
    } else {
        Some(repeated_sum(lo, hi))
    }
}

/// The sum of repeated numbers is natural and grows with the range.
pub proof fn lemma_repeated_grows(lo: int, hi: int, further: int)
    requires
        hi <= further,
    ensures
        0 <= repeated_sum(lo, hi) <= repeated_sum(lo, further),
    decreases further - lo + 1,
{
    if lo <= further {
        if hi < further {
            lemma_repeated_grows(lo, hi, further - 1);
        } else {
            lemma_repeated_grows(lo, hi - 1, further - 1);
        }
    }
}

/// The sum of the repeated numbers from `lo` to `hi`, or `None` where there
/// is no answer.
pub fn try_sum_inval2(lo: i64, hi: i64) -> (sum: Option<i64>)
    ensures
        sum matches Some(s) ==> spec_sum_inval2(lo as int, hi as int) == Some(s as int),
        sum is None ==> spec_sum_inval2(lo as int, hi as int) is None,
{
    if hi == i64::MAX {
        return None;
    }
    let mut sum: i64 = 0;
    let mut n: i64 = lo;
    proof {
        lemma_repeated_grows(lo as int, lo - 1, lo - 1);
    }
    while n <= hi
        invariant
            lo <= n <= hi + 1 || (lo > hi && n == lo),
            hi < i64::MAX,
            sum == repeated_sum(lo as int, n - 1),
            0 <= sum,
        decreases hi - n + 1,
    {
        if is_inval2(&n) {
            match sum.checked_add(n) {
                Some(more) => {
                    sum = more;
                },
                None => {
                    proof {
                        lemma_repeated_grows(lo as int, n as int, hi as int);
                    }
                    return None;
                },
            }
        }
        n += 1;
    }
    Some(sum)
}

/// The sum of the repeated numbers from `lo` to `hi`.
pub fn sum_inval2(lo: i64, hi: i64) -> (sum: i64)
    requires
        spec_sum_inval2(lo as int, hi as int) is Some,
    ensures
        spec_sum_inval2(lo as int, hi as int) == Some(sum as int),
{
    try_sum_inval2(lo, hi).unwrap()
}

/// The answer to the second part: the sum of the repeated numbers in the
/// ranges of the text.
pub open spec fn spec_answer_2(text: Seq<u8>) -> Option<i64> {
    match spec_parse_text(text) {
        Some(ranges) => match total_of(ranges, |lo: int, hi: int| spec_sum_inval2(lo, hi)) {
            Some(total) => Some(total as i64),
            None => None,
        },
        None => None,
    }
}

/// Adds up the repeated numbers in the ranges of the text.
pub fn try_parse_2(text: &[u8]) -> (answer: Option<i64>)
    ensures
        answer == spec_answer_2(text@),
{
    match parse_text(text) {
        Some(ranges) => {
            let ghost sums = |lo: int, hi: int| spec_sum_inval2(lo, hi);
            let mut total: Option<i64> = Some(0);
            let mut i: usize = 0;
            assert(ranges@.take(0) =~= Seq::<Range>::empty());
            while i < ranges.len()
                invariant
                    i <= ranges@.len(),
                    sums == |lo: int, hi: int| spec_sum_inval2(lo, hi),
                    total is Some ==> total_of(ranges@.take(i as int), sums) == Some(
                        total->0 as int,
                    ),
                    total is None ==> total_of(ranges@.take(i as int), sums) is None,
                decreases ranges@.len() - i,
            {
                proof {
                    let longer = ranges@.take(i + 1);
                    assert(longer.drop_last() =~= ranges@.take(i as int));
                    assert(longer.last() == ranges@[i as int]);
                }
                let range = ranges[i];
                total = match (total, try_sum_inval2(range.0, range.1)) {
                    (Some(before), Some(here)) => before.checked_add(here),
                    _ => None,
                };
                i += 1;
            }
            assert(ranges@.take(ranges@.len() as int) =~= ranges@);
            total
        },
        None => None,
    }
}

/// The sum of the repeated numbers in the ranges of `text`.
pub fn parse_2(text: &str) -> (answer: i64)
    requires
        spec_answer_2(text.spec_bytes()) is Some,
    ensures
        Some(answer) == spec_answer_2(text.spec_bytes()),
{
    try_parse_2(text.as_bytes()).unwrap()
}

} // verus!

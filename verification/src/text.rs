//! Readers for the plain-text puzzle inputs.
//!
//! All inputs are read as bytes: a text is cut into its lines, a line into
//! the fields between separators, and a field is read as a decimal number.
//! Every reader comes with a specification function that says what it
//! returns.

use vstd::prelude::*;
use vstd::slice::slice_subrange;

verus! {

/// The byte that ends a line.
pub const NEWLINE: u8 = 10;

/// The byte that may stand before the byte that ends a line.
pub const CARRIAGE_RETURN: u8 = 13;

/// Where `byte` first occurs in `text`, or the length of `text` if it does
/// not occur.
pub open spec fn find(text: Seq<u8>, byte: u8) -> nat
    decreases text.len(),
{
    if text.len() == 0 {
        0
    } else if text[0] == byte {
        0
    } else {
        1 + find(text.skip(1), byte)
    }
}

/// A place before which `byte` does not occur, and at which it does or the
/// text ends, is the place that [`find`] gives.
pub proof fn lemma_find(text: Seq<u8>, byte: u8, at: int)
    requires
        0 <= at <= text.len(),
        forall|k: int| 0 <= k < at ==> text[k] != byte,
        at < text.len() ==> text[at] == byte,
    ensures
        find(text, byte) == at,
    decreases text.len(),
{
    if text.len() > 0 && at > 0 {
        assert(text[0] != byte);
        let rest = text.skip(1);
        assert forall|k: int| 0 <= k < at - 1 implies rest[k] != byte by {
            assert(rest[k] == text[k + 1]);
        }
        lemma_find(rest, byte, at - 1);
    }
}

/// The views of the fields.
pub open spec fn views(fields: Seq<&[u8]>) -> Seq<Seq<u8>> {
    Seq::new(fields.len(), |i: int| fields[i]@)
}

/// The fields of `text` between the separators: one more than there are
/// separators, some of them possibly empty.
pub open spec fn split(text: Seq<u8>, separator: u8) -> Seq<Seq<u8>>
    decreases text.len(),
{
    let at = find(text, separator);
    if at >= text.len() {
        seq![text]
    } else {
        seq![text.take(at as int)] + split(text.skip(at as int + 1), separator)
    }
}

/// A line as it stands before a line end, without the carriage return that
/// may precede the line end.
pub open spec fn strip_return(line: Seq<u8>) -> Seq<u8> {
    if line.len() > 0 && line.last() == CARRIAGE_RETURN {
        line.drop_last()
    } else {
        line
    }
}

/// The lines of `text` that are not empty. A line ends with a newline, or
/// with a carriage return and a newline, or with the text.
pub open spec fn nonempty_lines(text: Seq<u8>) -> Seq<Seq<u8>>
    decreases text.len(),
{
    let at = find(text, NEWLINE);
    if at >= text.len() {
        if text.len() == 0 {
            Seq::empty()
        } else {
            seq![text]
        }
    } else {
        let line = strip_return(text.take(at as int));
        let rest = nonempty_lines(text.skip(at as int + 1));
        if line.len() == 0 {
            rest
        } else {
            seq![line] + rest
        }
    }
}

/// Where `byte` first occurs in `text` at or after `from`, or the length of
/// `text`.
pub fn find_from(text: &[u8], from: usize, byte: u8) -> (at: usize)
    requires
        from <= text@.len(),
    ensures
        from <= at <= text@.len(),
        at == from + find(text@.skip(from as int), byte),
        forall|k: int| from <= k < at ==> text@[k] != byte,
        at < text@.len() ==> text@[at as int] == byte,
{
    let mut at: usize = from;
    while at < text.len() && text[at] != byte
        invariant
            from <= at <= text@.len(),
            forall|k: int| from <= k < at ==> text@[k] != byte,
        decreases text@.len() - at,
    {
        at += 1;
    }
    proof {
        let rest = text@.skip(from as int);
        assert forall|k: int| 0 <= k < at - from implies rest[k] != byte by {
            assert(rest[k] == text@[from + k]);
        }
        lemma_find(rest, byte, at - from);
    }
    at
}

/// Cuts `text` at every separator.
pub fn split_fields<'a>(text: &'a [u8], separator: u8) -> (fields: Vec<&'a [u8]>)
    ensures
        views(fields@) == split(text@, separator),
        fields@.len() >= 1,
{
    let mut fields: Vec<&'a [u8]> = Vec::new();
    let mut start: usize = 0;
    let mut more = true;
    proof {
        assert(text@.skip(0) =~= text@);
        assert(views(fields@) + split(text@, separator) =~= split(text@, separator));
    }
    while more
        invariant
            start <= text@.len(),
            more ==> split(text@, separator) == views(fields@) + split(
                text@.skip(start as int),
                separator,
            ),
            !more ==> split(text@, separator) == views(fields@) && fields@.len() >= 1,
        decreases
                if more {
                    text@.len() - start + 1
                } else {
                    0
                },
    {
        let end = find_from(text, start, separator);
        let field = slice_subrange(text, start, end);
        let ghost before = views(fields@);
        let ghost rest = text@.skip(start as int);
        fields.push(field);
        proof {
            assert(views(fields@) =~= before + seq![field@]);
        }
        if end >= text.len() {
            proof {
                assert(field@ =~= rest);
            }
            more = false;
        } else {
            proof {
                assert(field@ =~= rest.take(end - start));
                assert(rest.skip(end - start + 1) =~= text@.skip(end + 1));
                assert(before + (seq![field@] + split(text@.skip(end + 1), separator)) =~= (before
                    + seq![field@]) + split(text@.skip(end + 1), separator));
            }
            start = end + 1;
        }
    }
    fields
}

/// The lines of `text` that are not empty.
pub fn lines<'a>(text: &'a [u8]) -> (found: Vec<&'a [u8]>)
    ensures
        views(found@) == nonempty_lines(text@),
        forall|i: int| 0 <= i < found@.len() ==> (#[trigger] found@[i])@.len() > 0,
{
    let mut found: Vec<&'a [u8]> = Vec::new();
    let mut start: usize = 0;
    let mut more = true;
    proof {
        assert(text@.skip(0) =~= text@);
        assert(views(found@) + nonempty_lines(text@) =~= nonempty_lines(text@));
    }
    while more
        invariant
            start <= text@.len(),
            more ==> nonempty_lines(text@) == views(found@) + nonempty_lines(
                text@.skip(start as int),
            ),
            !more ==> nonempty_lines(text@) == views(found@),
            forall|i: int| 0 <= i < found@.len() ==> (#[trigger] found@[i])@.len() > 0,
        decreases
                if more {
                    text@.len() - start + 1
                } else {
                    0
                },
    {
        let end = find_from(text, start, NEWLINE);
        let ghost before = views(found@);
        let ghost rest = text@.skip(start as int);
        if end >= text.len() {
            if start < end {
                let line = slice_subrange(text, start, end);
                found.push(line);
                proof {
                    assert(line@ =~= rest);
                    assert(views(found@) =~= before + seq![line@]);
                }
            } else {
                proof {
                    assert(views(found@) =~= before + Seq::<Seq<u8>>::empty());
                }
            }
            more = false;
        } else {
            let stop = if start < end && text[end - 1] == CARRIAGE_RETURN {
                end - 1
            } else {
                end
            };
            proof {
                let whole = rest.take(end - start);
                assert(whole.len() == end - start);
                if start < end {
                    assert(whole.last() == text@[end - 1]);
                }
                assert(text@.subrange(start as int, stop as int) =~= strip_return(whole));
                assert(rest.skip(end - start + 1) =~= text@.skip(end + 1));
            }
            if start < stop {
                let line = slice_subrange(text, start, stop);
                found.push(line);
                proof {
                    assert(views(found@) =~= before + seq![line@]);
                    assert(before + (seq![line@] + nonempty_lines(text@.skip(end + 1))) =~= (before
                        + seq![line@]) + nonempty_lines(text@.skip(end + 1)));
                }
            }
            start = end + 1;
        }
    }
    found
}

/// Whether `byte` is one of the ten decimal digits.
pub open spec fn is_digit(byte: u8) -> bool {
    48 <= byte <= 57
}

/// Every byte of `text` is a decimal digit.
pub open spec fn all_digits(text: Seq<u8>) -> bool {
    forall|i: int| 0 <= i < text.len() ==> is_digit(#[trigger] text[i])
}

/// The number that the decimal digits `digits` write.
pub open spec fn decimal_value(digits: Seq<u8>) -> nat
    decreases digits.len(),
{
    if digits.len() == 0 {
        0
    } else {
        (decimal_value(digits.drop_last()) * 10 + (digits.last() - 48)) as nat
    }
}

/// What a run of digits reads as: the number they write, provided there is a
/// digit at all, there is nothing but digits, and the number is no more than
/// `limit`.
pub open spec fn spec_parse_digits(text: Seq<u8>, limit: u64) -> Option<u64> {
    if text.len() > 0 && all_digits(text) && decimal_value(text) <= limit {
        Some(decimal_value(text) as u64)
    } else {
        None
    }
}

/// The number that more digits write is no smaller.
pub proof fn lemma_decimal_monotone(digits: Seq<u8>, fewer: int)
    requires
        0 <= fewer <= digits.len(),
        all_digits(digits),
    ensures
        decimal_value(digits.take(fewer)) <= decimal_value(digits),
    decreases digits.len() - fewer,
{
    if fewer < digits.len() {
        lemma_decimal_monotone(digits, fewer + 1);
        let longer = digits.take(fewer + 1);
        assert(longer.drop_last() =~= digits.take(fewer));
        assert(is_digit(digits[fewer]));
        assert(longer.last() == digits[fewer]);
    } else {
        assert(digits.take(fewer) =~= digits);
    }
}

/// Reads a run of decimal digits as a number up to `limit`.
pub fn parse_digits(text: &[u8], limit: u64) -> (value: Option<u64>)
    ensures
        value == spec_parse_digits(text@, limit),
{
    if text.len() == 0 {
        return None;
    }
    let mut value: u64 = 0;
    let mut i: usize = 0;
    while i < text.len()
        invariant
            i <= text@.len(),
            all_digits(text@.take(i as int)),
            value == decimal_value(text@.take(i as int)),
            value <= limit,
        decreases text@.len() - i,
    {
        let byte = text[i];
        let ghost longer = text@.take(i + 1);
        proof {
            assert(longer.drop_last() =~= text@.take(i as int));
            assert(longer.last() == byte);
        }
        if byte < 48 || byte > 57 {
            proof {
                assert(!is_digit(text@[i as int]));
            }
            return None;
        }
        let digit: u64 = (byte - 48) as u64;
        if value > limit / 10 || (value == limit / 10 && digit > limit % 10) {
            proof {
                assert(decimal_value(longer) > limit);
                if all_digits(text@) {
                    lemma_decimal_monotone(text@, i + 1);
                }
            }
            return None;
        }
        value = value * 10 + digit;
        proof {
            assert forall|j: int| 0 <= j < longer.len() implies is_digit(#[trigger] longer[j]) by {
                if j < i {
                    assert(longer[j] == text@.take(i as int)[j]);
                }
            }
        }
        i += 1;
    }
    proof {
        assert(text@.take(text@.len() as int) =~= text@);
    }
    Some(value)
}

/// What a field reads as an unsigned number: digits, with or without a plus
/// sign in front.
pub open spec fn spec_parse_unsigned(text: Seq<u8>, limit: u64) -> Option<u64> {
    if text.len() > 0 && text[0] == 43 {
        spec_parse_digits(text.skip(1), limit)
    } else {
        spec_parse_digits(text, limit)
    }
}

/// Reads a field as an unsigned number up to `limit`.
pub fn parse_unsigned(text: &[u8], limit: u64) -> (value: Option<u64>)
    ensures
        value == spec_parse_unsigned(text@, limit),
{
    if text.len() > 0 && text[0] == 43 {
        let digits = slice_subrange(text, 1, text.len());
        assert(digits@ =~= text@.skip(1));
        parse_digits(digits, limit)
    } else {
        parse_digits(text, limit)
    }
}

/// What a field reads as a `usize`.
pub open spec fn spec_parse_usize(text: Seq<u8>) -> Option<usize> {
    match spec_parse_unsigned(text, usize::MAX as u64) {
        Some(value) => Some(value as usize),
        None => None,
    }
}

/// Reads a field as a `usize`.
pub fn parse_usize(text: &[u8]) -> (value: Option<usize>)
    ensures
        value == spec_parse_usize(text@),
{
    match parse_unsigned(text, usize::MAX as u64) {
        Some(value) => Some(value as usize),
        None => None,
    }
}

/// What a field reads as a signed number: digits, with or without a sign in
/// front, within the range of an `i64`.
pub open spec fn spec_parse_i64(text: Seq<u8>) -> Option<i64> {
    if text.len() > 0 && text[0] == 45 {
        match spec_parse_digits(text.skip(1), 0x8000_0000_0000_0000) {
            Some(size) => Some((-(size as int)) as i64),
            None => None,
        }
    } else {
        match spec_parse_unsigned(text, 0x7fff_ffff_ffff_ffff) {
            Some(value) => Some(value as i64),
            None => None,
        }
    }
}

/// Reads a field as an `i64`.
pub fn parse_i64(text: &[u8]) -> (value: Option<i64>)
    ensures
        value == spec_parse_i64(text@),
{
    if text.len() > 0 && text[0] == 45 {
        let digits = slice_subrange(text, 1, text.len());
        assert(digits@ =~= text@.skip(1));
        match parse_digits(digits, 0x8000_0000_0000_0000) {
            Some(size) => {
                if size == 0x8000_0000_0000_0000 {
                    Some(i64::MIN)
                } else {
                    Some(-(size as i64))
                }
            },
            None => None,
        }
    } else {
        match parse_unsigned(text, 0x7fff_ffff_ffff_ffff) {
            Some(value) => Some(value as i64),
            None => None,
        }
    }
}

/// What a list of fields reads as, each field a `usize`: the numbers, if
/// every field is one.
pub open spec fn spec_parse_usize_fields(fields: Seq<Seq<u8>>) -> Option<Seq<usize>> {
    if forall|i: int| 0 <= i < fields.len() ==> spec_parse_usize(#[trigger] fields[i]) is Some {
        Some(Seq::new(fields.len(), |i: int| spec_parse_usize(fields[i])->0))
    } else {
        None
    }
}

/// Reads numbers that are separated by `separator`.
pub fn parse_usize_list(text: &[u8], separator: u8) -> (numbers: Option<Vec<usize>>)
    ensures
        numbers is Some <==> spec_parse_usize_fields(split(text@, separator)) is Some,
        numbers matches Some(list) ==> list@ == spec_parse_usize_fields(
            split(text@, separator),
        )->0,
{
    let fields = split_fields(text, separator);
    let mut numbers: Vec<usize> = Vec::new();
    let mut i: usize = 0;
    while i < fields.len()
        invariant
            i <= fields@.len(),
            views(fields@) == split(text@, separator),
            numbers@.len() == i,
            forall|j: int|
                0 <= j < i ==> spec_parse_usize(#[trigger] split(text@, separator)[j]) == Some(
                    numbers@[j],
                ),
        decreases fields@.len() - i,
    {
        assert(views(fields@)[i as int] == fields@[i as int]@);
        match parse_usize(fields[i]) {
            Some(number) => {
                numbers.push(number);
            },
            None => {
                return None;
            },
        }
        i += 1;
    }
    assert(numbers@ =~= spec_parse_usize_fields(split(text@, separator))->0);
    Some(numbers)
}

/// What a list of fields reads as, each field an `i64`.
pub open spec fn spec_parse_i64_fields(fields: Seq<Seq<u8>>) -> Option<Seq<i64>> {
    if forall|i: int| 0 <= i < fields.len() ==> spec_parse_i64(#[trigger] fields[i]) is Some {
        Some(Seq::new(fields.len(), |i: int| spec_parse_i64(fields[i])->0))
    } else {
        None
    }
}

/// Reads signed numbers that are separated by `separator`.
pub fn parse_i64_list(text: &[u8], separator: u8) -> (numbers: Option<Vec<i64>>)
    ensures
        numbers is Some <==> spec_parse_i64_fields(split(text@, separator)) is Some,
        numbers matches Some(list) ==> list@ == spec_parse_i64_fields(split(text@, separator))->0,
{
    let fields = split_fields(text, separator);
    let mut numbers: Vec<i64> = Vec::new();
    let mut i: usize = 0;
    while i < fields.len()
        invariant
            i <= fields@.len(),
            views(fields@) == split(text@, separator),
            numbers@.len() == i,
            forall|j: int|
                0 <= j < i ==> spec_parse_i64(#[trigger] split(text@, separator)[j]) == Some(
                    numbers@[j],
                ),
        decreases fields@.len() - i,
    {
        assert(views(fields@)[i as int] == fields@[i as int]@);
        match parse_i64(fields[i]) {
            Some(number) => {
                numbers.push(number);
            },
            None => {
                return None;
            },
        }
        i += 1;
    }
    assert(numbers@ =~= spec_parse_i64_fields(split(text@, separator))->0);
    Some(numbers)
}

/// Where the digits that begin at `from` end: the first place at or after
/// `from` that holds no digit.
pub open spec fn digits_end(text: Seq<u8>, from: int) -> int
    decreases text.len() - from,
{
    if 0 <= from < text.len() && is_digit(text[from]) {
        digits_end(text, from + 1)
    } else {
        from
    }
}

/// The digits that begin at `from` end at or after `from`, within the text,
/// and all that stands between is digits.
pub proof fn lemma_digits_end(text: Seq<u8>, from: int)
    requires
        0 <= from <= text.len(),
    ensures
        from <= digits_end(text, from) <= text.len(),
        all_digits(text.subrange(from, digits_end(text, from))),
        digits_end(text, from) < text.len() ==> !is_digit(text[digits_end(text, from)]),
    decreases text.len() - from,
{
    if from < text.len() && is_digit(text[from]) {
        lemma_digits_end(text, from + 1);
        let end = digits_end(text, from);
        assert forall|i: int| 0 <= i < text.subrange(from, end).len() implies is_digit(
            #[trigger] text.subrange(from, end)[i],
        ) by {
            if i > 0 {
                assert(text.subrange(from, end)[i] == text.subrange(from + 1, end)[i - 1]);
            }
        }
    }
}

/// Finds where the digits that begin at `from` end.
pub fn scan_digits(text: &[u8], from: usize) -> (end: usize)
    requires
        from <= text@.len(),
    ensures
        end == digits_end(text@, from as int),
        from <= end <= text@.len(),
{
    let mut end: usize = from;
    while end < text.len() && text[end] >= 48 && text[end] <= 57
        invariant
            from <= end <= text@.len(),
            digits_end(text@, from as int) == digits_end(text@, end as int),
        decreases text@.len() - end,
    {
        end += 1;
    }
    end
}

/// Whether a range, two numbers with a hyphen between them, begins at `at`.
pub open spec fn range_at(text: Seq<u8>, at: int) -> bool {
    let hyphen = digits_end(text, at);
    &&& 0 <= at < text.len()
    &&& is_digit(text[at])
    &&& hyphen + 1 < text.len()
    &&& text[hyphen] == 45
    &&& is_digit(text[hyphen + 1])
}

/// Where the first range at or after `from` begins, if there is one.
pub open spec fn first_range(text: Seq<u8>, from: int) -> Option<int>
    decreases text.len() - from,
{
    if from < 0 || from >= text.len() {
        None
    } else if range_at(text, from) {
        Some(from)
    } else {
        first_range(text, from + 1)
    }
}

/// The two runs of digits of the first range in the text: where the first
/// begins, where the hyphen stands, and where the second ends.
pub open spec fn spec_find_range(text: Seq<u8>) -> Option<(int, int, int)> {
    match first_range(text, 0) {
        Some(at) => Some((at, digits_end(text, at), digits_end(text, digits_end(text, at) + 1))),
        None => None,
    }
}

/// Finds the first range in the text.
pub fn find_range(text: &[u8]) -> (found: Option<(usize, usize, usize)>)
    ensures
        found is Some <==> spec_find_range(text@) is Some,
        found matches Some(places) ==> spec_find_range(text@) == Some(
            (places.0 as int, places.1 as int, places.2 as int),
        ) && places.0 < places.1 < places.2 <= text@.len(),
{
    let mut at: usize = 0;
    while at < text.len()
        invariant
            at <= text@.len(),
            first_range(text@, 0) == first_range(text@, at as int),
        decreases text@.len() - at,
    {
        if text[at] >= 48 && text[at] <= 57 {
            let hyphen = scan_digits(text, at);
            if hyphen < text.len() - 1 && text[hyphen] == 45 && text[hyphen + 1] >= 48 && text[hyphen
                + 1] <= 57 {
                let end = scan_digits(text, hyphen + 1);
                return Some((at, hyphen, end));
            }
        }
        at += 1;
    }
    None
}

/// Ten to the power of `n`.
pub open spec fn pow10(n: nat) -> int
    decreases n,
{
    if n == 0 {
        1
    } else {
        10 * pow10((n - 1) as nat)
    }
}

/// Powers of ten grow, and the eighteenth is a one with eighteen zeros.
pub proof fn lemma_pow10(n: nat)
    requires
        n <= 18,
    ensures
        1 <= pow10(n) <= 1_000_000_000_000_000_000,
        n > 0 ==> pow10(n) == 10 * pow10((n - 1) as nat),
        n <= 15 ==> pow10(n) <= 1_000_000_000_000_000,
        pow10(18) == 1_000_000_000_000_000_000,
    decreases 18 - n,
{
    reveal_with_fuel(pow10, 19);
    if n < 18 {
        lemma_pow10(n + 1);
    } else {
        assert(pow10(18) == 1_000_000_000_000_000_000);
    }
}

/// Ten to the power of `n`.
pub fn ten_pow(n: u32) -> (power: i64)
    requires
        n <= 18,
    ensures
        power == pow10(n as nat),
{
    let mut power: i64 = 1;
    let mut k: u32 = 0;
    while k < n
        invariant
            k <= n <= 18,
            power == pow10(k as nat),
        decreases n - k,
    {
        proof {
            lemma_pow10((k + 1) as nat);
        }
        power = power * 10;
        k += 1;
    }
    power
}

} // verus!

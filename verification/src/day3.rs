//! Banks of batteries, and the largest number that some of them write.
//!
//! A bank is a line of digits, one battery each. Batteries that are switched
//! on write a number, from left to right.

use crate::text::{lemma_pow10, lines, nonempty_lines, pow10, ten_pow, views};
use std::collections::HashMap;
use vstd::prelude::*;
use vstd::slice::slice_subrange;
use vstd::std_specs::hash::group_hash_axioms;
use vstd::string::StringSliceAdditionalSpecFns;

verus! {

/// What a line reads as: the number of each of its signs, counted from the
/// digit zero, if no sign stands before the digit zero.
pub open spec fn spec_parse_bank(line: Seq<u8>) -> Option<Seq<u8>> {
    if forall|i: int| 0 <= i < line.len() ==> #[trigger] line[i] >= 48 {
        Some(Seq::new(line.len(), |i: int| (line[i] - 48) as u8))
    } else {
        None
    }
}

/// Reads a bank.
pub fn parse_bank(line: &[u8]) -> (bank: Option<Vec<u8>>)
    ensures
        bank is Some <==> spec_parse_bank(line@) is Some,
        bank matches Some(read) ==> read@ == spec_parse_bank(line@)->0,
{
    let mut bank: Vec<u8> = Vec::new();
    let mut i: usize = 0;
    while i < line.len()
        invariant
            i <= line@.len(),
            bank@.len() == i,
            forall|j: int| 0 <= j < i ==> #[trigger] line@[j] >= 48,
            forall|j: int| 0 <= j < i ==> bank@[j] == (line@[j] - 48) as u8,
        decreases line@.len() - i,
    {
        if line[i] < 48 {
            return None;
        }
        bank.push(line[i] - 48);
        i += 1;
    }
    assert(bank@ =~= spec_parse_bank(line@)->0);
    Some(bank)
}

/// What a text reads as: the banks of its lines.
pub open spec fn spec_parse_text(text: Seq<u8>) -> Option<Seq<Seq<u8>>> {
    let found = nonempty_lines(text);
    if forall|i: int| 0 <= i < found.len() ==> spec_parse_bank(#[trigger] found[i]) is Some {
        Some(Seq::new(found.len(), |i: int| spec_parse_bank(found[i])->0))
    } else {
        None
    }
}

/// The banks as sequences.
pub open spec fn banks_of(banks: Seq<Vec<u8>>) -> Seq<Seq<u8>> {
    Seq::new(banks.len(), |i: int| banks[i]@)
}

/// Reads the banks that a text holds, one to a line.
pub fn parse_text(text: &[u8]) -> (banks: Option<Vec<Vec<u8>>>)
    ensures
        banks is Some <==> spec_parse_text(text@) is Some,
        banks matches Some(read) ==> banks_of(read@) == spec_parse_text(text@)->0,
{
    let found = lines(text);
    let mut banks: Vec<Vec<u8>> = Vec::new();
    let mut i: usize = 0;
    while i < found.len()
        invariant
            i <= found@.len(),
            views(found@) == nonempty_lines(text@),
            banks@.len() == i,
            forall|j: int|
                0 <= j < i ==> spec_parse_bank(#[trigger] nonempty_lines(text@)[j]) == Some(
                    banks@[j]@,
                ),
        decreases found@.len() - i,
    {
        assert(views(found@)[i as int] == found@[i as int]@);
        match parse_bank(found[i]) {
            Some(bank) => {
                banks.push(bank);
            },
            None => {
                return None;
            },
        }
        i += 1;
    }
    assert(banks_of(banks@) =~= spec_parse_text(text@)->0);
    Some(banks)
}

/// The number that the batteries `i` and `j` write.
pub open spec fn pair(bank: Seq<u8>, i: int, j: int) -> int {
    bank[i] * 10 + bank[j]
}

/// `best` is the largest number that two batteries of the bank write.
pub open spec fn is_best_pair(bank: Seq<u8>, best: int) -> bool {
    &&& exists|i: int, j: int| 0 <= i < j < bank.len() && #[trigger] pair(bank, i, j) == best
    &&& forall|i: int, j: int| 0 <= i < j < bank.len() ==> #[trigger] pair(bank, i, j) <= best
}

/// The largest number that two batteries of the bank write.
pub fn joltage(bank: &Vec<u8>) -> (best: i64)
    requires
        bank@.len() >= 2,
    ensures
        is_best_pair(bank@, best as int),
        best == best_pair(bank@),
        0 <= best <= 2805,
{
    let n = bank.len();
    // the largest digit behind each battery, found from the right
    let mut behind: u8 = bank[n - 1];
    let mut best: i64 = bank[n - 2] as i64 * 10 + behind as i64;
    let mut k: usize = n - 2;
    assert(pair(bank@, n - 2, n - 1) == best);
    while k > 0
        invariant
            k <= n - 2,
            n == bank@.len(),
            0 <= best <= 2805,
            behind == max_from(bank@, k + 1),
            best == best_from(bank@, k as int),
            exists|j: int| k < j < n && bank@[j] == behind,
            forall|j: int| k < j < n ==> bank@[j] <= behind,
            exists|i: int, j: int| k <= i < j < n && #[trigger] pair(bank@, i, j) == best,
            forall|i: int, j: int| k <= i < j < n ==> #[trigger] pair(bank@, i, j) <= best,
        decreases k,
    {
        if bank[k] > behind {
            behind = bank[k];
        }
        k -= 1;
        let here: i64 = bank[k] as i64 * 10 + behind as i64;
        proof {
            let j = choose|j: int| k < j < n && bank@[j] == behind;
            assert(pair(bank@, k as int, j) == here);
        }
        if here > best {
            best = here;
        }
    }
    best
}

/// The sum of the first `upto` numbers.
pub open spec fn sum_upto(values: Seq<int>, upto: int) -> int
    decreases upto,
{
    if upto <= 0 {
        0
    } else {
        sum_upto(values, upto - 1) + values[upto - 1]
    }
}

/// The largest digit of the batteries from `from` on.
pub open spec fn max_from(bank: Seq<u8>, from: int) -> int
    decreases bank.len() - from,
{
    if from >= bank.len() - 1 {
        bank[bank.len() - 1] as int
    } else if bank[from] >= max_from(bank, from + 1) {
        bank[from] as int
    } else {
        max_from(bank, from + 1)
    }
}

/// The largest number that two of the batteries from `from` on write.
pub open spec fn best_from(bank: Seq<u8>, from: int) -> int
    decreases bank.len() - from,
{
    if from >= bank.len() - 2 {
        pair(bank, bank.len() - 2, bank.len() - 1)
    } else if bank[from] * 10 + max_from(bank, from + 1) >= best_from(bank, from + 1) {
        bank[from] * 10 + max_from(bank, from + 1)
    } else {
        best_from(bank, from + 1)
    }
}

/// The largest number that two batteries of the bank write.
pub open spec fn best_pair(bank: Seq<u8>) -> int {
    best_from(bank, 0)
}

/// The largest number is not negative.
pub proof fn lemma_pair_natural(bank: Seq<u8>, from: int)
    requires
        bank.len() >= 2,
        0 <= from,
    ensures
        0 <= max_from(bank, from),
        0 <= best_from(bank, from),
    decreases bank.len() - from,
{
    if from < bank.len() - 1 {
        lemma_pair_natural(bank, from + 1);
    }
}

/// The answer to the first part: the sum, over the banks, of the largest
/// number that two batteries write. There is none if the text does not hold
/// banks, if a bank has fewer than two batteries, or if the sum does not fit
/// an `i64`.
pub open spec fn spec_answer_1(text: Seq<u8>) -> Option<i64> {
    match spec_parse_text(text) {
        Some(banks) => {
            let values = Seq::new(banks.len(), |i: int| best_pair(banks[i]));
            if (forall|i: int| 0 <= i < banks.len() ==> (#[trigger] banks[i]).len() >= 2)
                && sum_upto(values, values.len() as int) <= i64::MAX {
                Some(sum_upto(values, values.len() as int) as i64)
            } else {
                None
            }
        },
        None => None,
    }
}

/// The sum of numbers that are not negative grows with every number.
pub proof fn lemma_sum_grows(values: Seq<int>, fewer: int, more: int)
    requires
        forall|i: int| 0 <= i < values.len() ==> 0 <= #[trigger] values[i],
        0 <= fewer <= more <= values.len(),
    ensures
        0 <= sum_upto(values, fewer) <= sum_upto(values, more),
    decreases more,
{
    if fewer < more {
        lemma_sum_grows(values, fewer, more - 1);
    } else if fewer > 0 {
        lemma_sum_grows(values, fewer - 1, fewer - 1);
    }
}

/// Sums up the largest number that two batteries of each bank write.
pub fn try_parse_1(text: &[u8]) -> (answer: Option<i64>)
    ensures
        answer == spec_answer_1(text@),
{
    match parse_text(text) {
        Some(banks) => {
            let ghost all = banks_of(banks@);
            let ghost values = Seq::new(all.len(), |i: int| best_pair(all[i]));
            let mut sum: i64 = 0;
            let mut i: usize = 0;
            while i < banks.len()
                invariant
                    i <= banks@.len(),
                    all == banks_of(banks@),
                    spec_parse_text(text@) == Some(all),
                    values == Seq::new(all.len(), |i: int| best_pair(all[i])),
                    forall|j: int| 0 <= j < i ==> (#[trigger] all[j]).len() >= 2,
                    forall|j: int| 0 <= j < i ==> 0 <= #[trigger] values[j],
                    sum == sum_upto(values, i as int),
                    0 <= sum,
                decreases banks@.len() - i,
            {
                let bank = &banks[i];
                assert(all[i as int] == bank@);
                if bank.len() < 2 {
                    return None;
                }
                let best = joltage(bank);
                proof {
                    assert(values[i as int] == best);
                }
                match sum.checked_add(best) {
                    Some(more) => {
                        sum = more;
                    },
                    None => {
                        proof {
                            assert(sum_upto(values, i + 1) > i64::MAX);
                            if forall|j: int| 0 <= j < all.len() ==> (#[trigger] all[j]).len() >= 2 {
                                assert forall|j: int| 0 <= j < values.len() implies 0
                                    <= #[trigger] values[j] by {
                                    lemma_pair_natural(all[j], 0);
                                }
                                lemma_sum_grows(values, i + 1, values.len() as int);
                            }
                        }
                        return None;
                    },
                }
                i += 1;
            }
            Some(sum)
        },
        None => None,
    }
}

/// The sum of the largest number that two batteries of each bank in `text`
/// write.
pub fn parse_1(text: &str) -> (answer: i64)
    requires
        spec_answer_1(text.spec_bytes()) is Some,
    ensures
        Some(answer) == spec_answer_1(text.spec_bytes()),
{
    try_parse_1(text.as_bytes()).unwrap()
}

/// The largest number that `digits` batteries of the bank write, the first
/// of them standing for the highest place. A battery is either switched on,
/// and then stands for the highest place that is left, or it is not. A bank
/// with fewer batteries than places writes nothing.
pub open spec fn best(bank: Seq<u8>, digits: nat) -> int
    decreases bank.len(),
{
    if digits > bank.len() {
        0
    } else if digits <= 1 {
        max_from(bank, 0)
    } else {
        let on = bank[0] * pow10((digits - 1) as nat) + best(bank.skip(1), (digits - 1) as nat);
        let off = best(bank.skip(1), digits);
        if on >= off {
            on
        } else {
            off
        }
    }
}

/// No battery has a digit of more than 255, so the largest number of
/// `digits` places is less than 29 times ten to the power of `digits`.
pub proof fn lemma_best_bound(bank: Seq<u8>, digits: nat)
    requires
        1 <= digits <= 15,
    ensures
        0 <= best(bank, digits) <= 29 * pow10(digits),
    decreases bank.len(),
{
    lemma_pow10(digits);
    if digits > bank.len() {
    } else if digits <= 1 {
        lemma_max_bound(bank, 0);
        reveal_with_fuel(pow10, 2);
    } else {
        lemma_best_bound(bank.skip(1), (digits - 1) as nat);
        lemma_best_bound(bank.skip(1), digits);
        let lower = pow10((digits - 1) as nat);
        let digit = bank[0] as int;
        assert(0 <= digit * lower <= 255 * lower) by (nonlinear_arith)
            requires
                0 <= digit <= 255,
                lower >= 1,
        ;
    }
}

/// The largest digit is a digit.
pub proof fn lemma_max_bound(bank: Seq<u8>, from: int)
    requires
        bank.len() >= 1,
        0 <= from,
    ensures
        0 <= max_from(bank, from) <= 255,
    decreases bank.len() - from,
{
    if from < bank.len() - 1 {
        lemma_max_bound(bank, from + 1);
    }
}

/// The largest digit of the bank.
pub fn max_digit(bank: &[u8]) -> (largest: u8)
    requires
        bank@.len() >= 1,
    ensures
        largest == max_from(bank@, 0),
{
    let n = bank.len();
    let mut largest: u8 = bank[n - 1];
    let mut k: usize = n - 1;
    while k > 0
        invariant
            k <= n - 1,
            n == bank@.len(),
            largest == max_from(bank@, k as int),
        decreases k,
    {
        k -= 1;
        if bank[k] > largest {
            largest = bank[k];
        }
    }
    largest
}

/// The most batteries a bank may have if answers for it are to be
/// remembered.
pub const MEMO_LIMIT: usize = 0x0fff_ffff;

/// What an entry of the memo table must hold: the answer for the last
/// batteries of the bank, as many as the key says, and for the number of
/// places that the key says.
pub open spec fn answers(bank: Seq<u8>, key: usize, value: i64) -> bool {
    &&& key / 16 <= bank.len()
    &&& 1 <= key % 16 <= 15
    &&& value == best(bank.skip(bank.len() - key / 16), (key % 16) as nat)
}

/// Every entry that speaks of no more batteries than the bank has holds the
/// answer.
pub open spec fn sound_for(memo: Map<usize, i64>, bank: Seq<u8>) -> bool {
    forall|key: usize| #[trigger]
        memo.contains_key(key) && key / 16 <= bank.len() ==> answers(bank, key, memo[key])
}

/// The largest number that `digits` batteries of the bank write. Answers
/// for the ends of the bank are looked up in `cache` and remembered there.
pub fn joltage2(bank: &[u8], digits: u32, cache: &mut HashMap<usize, i64>) -> (value: i64)
    requires
        1 <= digits <= 15,
        sound_for(old(cache)@, bank@),
    ensures
        value == best(bank@, digits as nat),
        sound_for(final(cache)@, bank@),
        forall|key: usize| #[trigger]
            final(cache)@.contains_key(key) ==> (old(cache)@.contains_key(key) && old(cache)@[key]
                == final(cache)@[key]) || answers(bank@, key, final(cache)@[key]),
    decreases bank@.len(),
{
    broadcast use group_hash_axioms;

    let n = bank.len();
    let ghost before = cache@;
    let remember = n <= MEMO_LIMIT;
    let key: usize = if remember {
        n * 16 + digits as usize
    } else {
        0
    };
    proof {
        assert(bank@.skip(0) =~= bank@);
        lemma_best_bound(bank@, digits as nat);
        lemma_pow10(digits as nat);
    }
    if remember {
        if let Some(known) = cache.get(&key) {
            return *known;
        }
    }
    let value: i64 = if digits as usize > n {
        0
    } else if digits == 1 {
        max_digit(bank) as i64
    } else {
        let rest = slice_subrange(bank, 1, n);
        proof {
            assert(rest@ =~= bank@.skip(1));
            lemma_sound_rest(before, bank@);
            lemma_best_bound(rest@, (digits - 1) as nat);
            lemma_best_bound(rest@, digits as nat);
            lemma_pow10((digits - 1) as nat);
        }
        let lower = ten_pow(digits - 1);
        let ghost digit = bank@[0] as int;
        assert(0 <= digit * lower <= 255 * lower) by (nonlinear_arith)
            requires
                0 <= digit <= 255,
                lower >= 1,
        ;
        let on_rest = joltage2(rest, digits - 1, cache);
        let ghost between = cache@;
        let on = bank[0] as i64 * lower + on_rest;
        let off = joltage2(rest, digits, cache);
        proof {
            assert forall|k: usize| #[trigger]
                cache@.contains_key(k) implies (before.contains_key(k) && before[k] == cache@[k])
                || answers(bank@, k, cache@[k]) by {
                if !(before.contains_key(k) && before[k] == cache@[k]) {
                    if between.contains_key(k) && between[k] == cache@[k] {
                        assert(answers(rest@, k, between[k]));
                    } else {
                        assert(answers(rest@, k, cache@[k]));
                    }
                    lemma_answers_rest(bank@, k, cache@[k]);
                }
            }
        }
        if on >= off {
            on
        } else {
            off
        }
    };
    if remember {
        cache.insert(key, value);
    }
    value
}

/// An answer for the end of a bank is the same whether or not a battery
/// stands in front.
pub proof fn lemma_answers_rest(bank: Seq<u8>, key: usize, value: i64)
    requires
        bank.len() > 0,
        key / 16 <= bank.len() - 1,
    ensures
        answers(bank.skip(1), key, value) <==> answers(bank, key, value),
{
    let rest = bank.skip(1);
    assert(rest.skip(rest.len() - key / 16) =~= bank.skip(bank.len() - key / 16));
}

/// A table that is sound for a bank is sound for the bank without its first
/// battery.
pub proof fn lemma_sound_rest(memo: Map<usize, i64>, bank: Seq<u8>)
    requires
        bank.len() > 0,
        sound_for(memo, bank),
    ensures
        sound_for(memo, bank.skip(1)),
{
    assert forall|key: usize| #[trigger]
        memo.contains_key(key) && key / 16 <= bank.skip(1).len() implies answers(
        bank.skip(1),
        key,
        memo[key],
    ) by {
        lemma_answers_rest(bank, key, memo[key]);
    }
}

/// The answer to the second part: the sum, over the banks, of the largest
/// number that twelve batteries write. There is none if the text does not
/// hold banks or if the sum does not fit an `i64`.
pub open spec fn spec_answer_2(text: Seq<u8>) -> Option<i64> {
    match spec_parse_text(text) {
        Some(banks) => {
            let values = Seq::new(banks.len(), |i: int| best(banks[i], 12));
            if sum_upto(values, values.len() as int) <= i64::MAX {
                Some(sum_upto(values, values.len() as int) as i64)
            } else {
                None
            }
        },
        None => None,
    }
}

/// Sums up the largest number that twelve batteries of each bank write.
pub fn try_parse_2(text: &[u8]) -> (answer: Option<i64>)
    ensures
        answer == spec_answer_2(text@),
{
    match parse_text(text) {
        Some(banks) => {
            let ghost all = banks_of(banks@);
            let ghost values = Seq::new(all.len(), |i: int| best(all[i], 12));
            proof {
                assert forall|j: int| 0 <= j < values.len() implies 0 <= #[trigger] values[j] by {
                    lemma_best_bound(all[j], 12);
                }
            }
            let mut sum: i64 = 0;
            let mut i: usize = 0;
            while i < banks.len()
                invariant
                    i <= banks@.len(),
                    all == banks_of(banks@),
                    spec_parse_text(text@) == Some(all),
                    values == Seq::new(all.len(), |i: int| best(all[i], 12)),
                    forall|j: int| 0 <= j < values.len() ==> 0 <= #[trigger] values[j],
                    sum == sum_upto(values, i as int),
                decreases banks@.len() - i,
            {
                let bank = &banks[i];
                assert(all[i as int] == bank@);
                let mut cache: HashMap<usize, i64> = HashMap::new();
                let value = joltage2(bank.as_slice(), 12, &mut cache);
                proof {
                    assert(values[i as int] == value);
                    lemma_sum_grows(values, i as int, i as int);
                }
                match sum.checked_add(value) {
                    Some(more) => {
                        sum = more;
                    },
                    None => {
                        proof {
                            lemma_sum_grows(values, i + 1, values.len() as int);
                        }
                        return None;
                    },
                }
                i += 1;
            }
            Some(sum)
        },
        None => None,
    }
}

/// The sum of the largest number that twelve batteries of each bank in
/// `text` write.
pub fn parse_2(text: &str) -> (answer: i64)
    requires
        spec_answer_2(text.spec_bytes()) is Some,
    ensures
        Some(answer) == spec_answer_2(text.spec_bytes()),
{
    try_parse_2(text.as_bytes()).unwrap()
}

} // verus!

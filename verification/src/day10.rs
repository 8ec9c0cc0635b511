//! Machines with buttons: how few presses open every lock, and how few set
//! every counter.
//!
//! A line of the input describes one machine in words that are separated by
//! single spaces: the lock's key as a pattern in square brackets, `#` for a
//! set bit and the first sign for bit zero; each button as a list of bit
//! positions in round brackets; the counters in curly brackets.

use crate::combo::{
    all_zero, checked_total, is_min_presses, lemma_answer_unique, mask_rows, solve_joltage, total,
};
use crate::machine::{models, Machine, MachineModel};
use crate::reach::{fewest_presses, is_min_depth, opens, never_opens};
use crate::text::{
    lines, nonempty_lines, parse_usize_list, spec_parse_usize_fields, split, split_fields, views,
};
use vstd::prelude::*;
use vstd::slice::slice_subrange;
use vstd::string::StringSliceAdditionalSpecFns;

verus! {

// ---------------------------------------------------------------------------
// Reading machines
// ---------------------------------------------------------------------------

/// The number that a pattern of indicator lights stands for: the first sign
/// is bit zero, and a bit is set where the sign is `#`.
pub open spec fn key_value(pattern: Seq<u8>) -> nat
    decreases pattern.len(),
{
    if pattern.len() == 0 {
        0
    } else {
        (if pattern[0] == 35 {
            1nat
        } else {
            0nat
        }) + 2 * key_value(pattern.skip(1))
    }
}

/// What a pattern reads as: its number, if that fits a `usize`.
pub open spec fn spec_parse_key(pattern: Seq<u8>) -> Option<usize> {
    if key_value(pattern) <= usize::MAX {
        Some(key_value(pattern) as usize)
    } else {
        None
    }
}

/// The number of the end of a pattern is no larger than that of the whole.
pub proof fn lemma_key_value_grows(pattern: Seq<u8>, from: int)
    requires
        0 <= from <= pattern.len(),
    ensures
        key_value(pattern.skip(from)) <= key_value(pattern),
    decreases from,
{
    if from > 0 {
        lemma_key_value_grows(pattern, from - 1);
        let longer = pattern.skip(from - 1);
        assert(longer.skip(1) =~= pattern.skip(from));
    } else {
        assert(pattern.skip(0) =~= pattern);
    }
}

/// Reads a pattern of indicator lights.
pub fn parse_key(pattern: &[u8]) -> (key: Option<usize>)
    ensures
        key == spec_parse_key(pattern@),
{
    let mut key: usize = 0;
    let mut i: usize = pattern.len();
    assert(pattern@.skip(i as int) =~= Seq::<u8>::empty());
    while i > 0
        invariant
            i <= pattern@.len(),
            key == key_value(pattern@.skip(i as int)),
        decreases i,
    {
        i -= 1;
        let bit: usize = if pattern[i] == 35 {
            1
        } else {
            0
        };
        proof {
            let longer = pattern@.skip(i as int);
            assert(longer.skip(1) =~= pattern@.skip(i + 1));
            assert(longer[0] == pattern@[i as int]);
        }
        if key > (usize::MAX - bit) / 2 {
            proof {
                lemma_key_value_grows(pattern@, i as int);
            }
            return None;
        }
        key = key * 2 + bit;
    }
    assert(pattern@.skip(0) =~= pattern@);
    Some(key)
}

/// Reads a list of numbers that are separated by commas.
pub fn parse_nums(list: &[u8]) -> (numbers: Option<Vec<usize>>)
    ensures
        numbers is Some <==> spec_parse_usize_fields(split(list@, 44)) is Some,
        numbers matches Some(found) ==> found@ == spec_parse_usize_fields(split(list@, 44))->0,
{
    parse_usize_list(list, 44)
}

/// The bit that a position stands for. A position is read as a `u32`, as a
/// power of two takes its exponent.
pub open spec fn position_bit(position: usize) -> usize {
    1usize << (position as u32)
}

/// The mask with the bits of all `positions`.
pub open spec fn mask_of(positions: Seq<usize>) -> usize
    decreases positions.len(),
{
    if positions.len() == 0 {
        0
    } else {
        mask_of(positions.drop_last()) | position_bit(positions.last())
    }
}

/// Every position names a bit of a `usize`.
pub open spec fn positions_fit(positions: Seq<usize>) -> bool {
    forall|i: int| 0 <= i < positions.len() ==> (#[trigger] positions[i] as u32) < usize::BITS
}

/// What a list of bit positions reads as: the mask with those bits.
pub open spec fn spec_parse_button(list: Seq<u8>) -> Option<usize> {
    match spec_parse_usize_fields(split(list, 44)) {
        Some(positions) => if positions_fit(positions) {
            Some(mask_of(positions))
        } else {
            None
        },
        None => None,
    }
}

/// Reads a button: a list of bit positions that are separated by commas.
pub fn parse_button(list: &[u8]) -> (mask: Option<usize>)
    ensures
        mask == spec_parse_button(list@),
{
    match parse_nums(list) {
        Some(positions) => {
            let mut mask: usize = 0;
            let mut i: usize = 0;
            while i < positions.len()
                invariant
                    i <= positions@.len(),
                    spec_parse_usize_fields(split(list@, 44)) == Some(positions@),
                    positions_fit(positions@.take(i as int)),
                    mask == mask_of(positions@.take(i as int)),
                decreases positions@.len() - i,
            {
                let exponent: u32 = #[verifier::truncate]
                (positions[i] as u32);
                if exponent >= usize::BITS {
                    proof {
                        assert(!((positions@[i as int] as u32) < usize::BITS));
                    }
                    return None;
                }
                proof {
                    let longer = positions@.take(i + 1);
                    assert(longer.drop_last() =~= positions@.take(i as int));
                    assert(longer.last() == positions@[i as int]);
                    assert forall|j: int| 0 <= j < longer.len() implies (#[trigger] longer[j]
                        as u32) < usize::BITS by {
                        if j < i {
                            assert(longer[j] == positions@.take(i as int)[j]);
                        }
                    }
                }
                mask = mask | (1usize << exponent);
                i += 1;
            }
            assert(positions@.take(positions@.len() as int) =~= positions@);
            Some(mask)
        },
        None => None,
    }
}

/// A machine of which nothing has been read yet.
pub open spec fn blank() -> MachineModel {
    MachineModel { key: 0, buttons: Seq::empty(), joltage: Seq::empty() }
}

/// The machine after one more word has been read. A word has a bracket at
/// either end; what stands between them is a pattern after `[`, a button after
/// `(`, the counters after `{`, and of no account after anything else.
pub open spec fn read_word(machine: MachineModel, word: Seq<u8>) -> Option<MachineModel> {
    if word.len() < 2 {
        None
    } else {
        let inner = word.subrange(1, word.len() - 1);
        if word[0] == 91 {
            match spec_parse_key(inner) {
                Some(key) => Some(MachineModel { key, ..machine }),
                None => None,
            }
        } else if word[0] == 40 {
            match spec_parse_button(inner) {
                Some(mask) => Some(MachineModel { buttons: machine.buttons.push(mask), ..machine }),
                None => None,
            }
        } else if word[0] == 123 {
            match spec_parse_usize_fields(split(inner, 44)) {
                Some(joltage) => Some(MachineModel { joltage, ..machine }),
                None => None,
            }
        } else {
            Some(machine)
        }
    }
}

/// The machine after all `words` have been read, one after the other.
pub open spec fn read_words(words: Seq<Seq<u8>>) -> Option<MachineModel>
    decreases words.len(),
{
    if words.len() == 0 {
        Some(blank())
    } else {
        match read_words(words.drop_last()) {
            Some(machine) => read_word(machine, words.last()),
            None => None,
        }
    }
}

/// What a line reads as: the machine that its words describe.
pub open spec fn spec_parse_machine(line: Seq<u8>) -> Option<MachineModel> {
    read_words(split(line, 32))
}

/// Reads the machine that a line describes.
pub fn parse_machine(line: &[u8]) -> (machine: Option<Machine>)
    ensures
        machine is Some <==> spec_parse_machine(line@) is Some,
        machine matches Some(read) ==> read@ == spec_parse_machine(line@)->0,
{
    let words = split_fields(line, 32);
    let mut machine = Machine { key: 0, buttons: Vec::new(), joltage: Vec::new() };
    let mut i: usize = 0;
    assert(views(words@).take(0) =~= Seq::<Seq<u8>>::empty());
    assert(machine@ == blank());
    while i < words.len()
        invariant
            i <= words@.len(),
            views(words@) == split(line@, 32),
            read_words(views(words@).take(i as int)) == Some(machine@),
        decreases words@.len() - i,
    {
        let word = words[i];
        proof {
            let longer = views(words@).take(i + 1);
            assert(longer.drop_last() =~= views(words@).take(i as int));
            assert(longer.last() == word@);
            if read_words(longer) is None {
                assert(views(words@).take(words@.len() as int) =~= views(words@));
                lemma_read_words_fails(views(words@), i + 1);
            }
        }
        if word.len() < 2 {
            return None;
        }
        let inner = slice_subrange(word, 1, word.len() - 1);
        if word[0] == 91 {
            match parse_key(inner) {
                Some(key) => {
                    machine.key = key;
                },
                None => {
                    return None;
                },
            }
        } else if word[0] == 40 {
            match parse_button(inner) {
                Some(mask) => {
                    machine.buttons.push(mask);
                },
                None => {
                    return None;
                },
            }
        } else if word[0] == 123 {
            match parse_nums(inner) {
                Some(joltage) => {
                    machine.joltage = joltage;
                },
                None => {
                    return None;
                },
            }
        }
        i += 1;
    }
    assert(views(words@).take(words@.len() as int) =~= views(words@));
    Some(machine)
}

/// Once a word cannot be read, no machine comes of the line.
pub proof fn lemma_read_words_fails(words: Seq<Seq<u8>>, upto: int)
    requires
        0 <= upto <= words.len(),
        read_words(words.take(upto)) is None,
    ensures
        read_words(words) is None,
    decreases words.len() - upto,
{
    if upto < words.len() {
        let longer = words.take(upto + 1);
        assert(longer.drop_last() =~= words.take(upto));
        lemma_read_words_fails(words, upto + 1);
    } else {
        assert(words.take(upto) =~= words);
    }
}

/// What a text reads as: the machines of its lines, if every line that is
/// not empty describes one.
pub open spec fn spec_parse_text(text: Seq<u8>) -> Option<Seq<MachineModel>> {
    let found = nonempty_lines(text);
    if forall|i: int| 0 <= i < found.len() ==> spec_parse_machine(#[trigger] found[i]) is Some {
        Some(Seq::new(found.len(), |i: int| spec_parse_machine(found[i])->0))
    } else {
        None
    }
}

/// Reads the machines that a text describes, one to a line.
pub fn parse_text(text: &[u8]) -> (machines: Option<Vec<Machine>>)
    ensures
        machines is Some <==> spec_parse_text(text@) is Some,
        machines matches Some(read) ==> models(read@) == spec_parse_text(text@)->0,
{
    let found = lines(text);
    let mut machines: Vec<Machine> = Vec::new();
    let mut i: usize = 0;
    while i < found.len()
        invariant
            i <= found@.len(),
            views(found@) == nonempty_lines(text@),
            machines@.len() == i,
            forall|j: int|
                0 <= j < i ==> spec_parse_machine(#[trigger] nonempty_lines(text@)[j]) == Some(
                    machines@[j]@,
                ),
        decreases found@.len() - i,
    {
        assert(views(found@)[i as int] == found@[i as int]@);
        match parse_machine(found[i]) {
            Some(machine) => {
                machines.push(machine);
            },
            None => {
                return None;
            },
        }
        i += 1;
    }
    assert(models(machines@) =~= spec_parse_text(text@)->0);
    Some(machines)
}

// ---------------------------------------------------------------------------
// Opening the locks
// ---------------------------------------------------------------------------

/// The fewest presses that open the lock of a machine.
pub open spec fn min_depth(machine: MachineModel) -> nat {
    choose|depth: nat| is_min_depth(machine.buttons, machine.key, depth)
}

/// The lock of every machine can be opened.
pub open spec fn all_open(machines: Seq<MachineModel>) -> bool {
    forall|i: int|
        0 <= i < machines.len() ==> !never_opens(
            (#[trigger] machines[i]).buttons,
            machines[i].key,
        )
}

/// The fewest presses that open the locks of the first `upto` machines, one
/// after the other.
pub open spec fn depth_sum(machines: Seq<MachineModel>, upto: int) -> nat
    decreases upto,
{
    if upto <= 0 {
        0
    } else {
        depth_sum(machines, upto - 1) + min_depth(machines[upto - 1])
    }
}

/// The fewest presses that open the lock of `machine`.
pub fn solve_machine(machine: &Machine) -> (depth: usize)
    requires
        !never_opens(machine.buttons@, machine.key),
    ensures
        is_min_depth(machine.buttons@, machine.key, depth as nat),
        depth == min_depth(machine@),
        machine.key == 0 ==> depth == 0,
{
    let found = fewest_presses(machine.key, machine.buttons.as_slice());
    let depth = found.unwrap();
    proof {
        lemma_depth_unique(machine.buttons@, machine.key, depth as nat, min_depth(machine@));
    }
    depth
}

/// There is one fewest number of presses.
pub proof fn lemma_depth_unique(buttons: Seq<usize>, key: usize, depth: nat, other: nat)
    requires
        is_min_depth(buttons, key, depth),
    ensures
        is_min_depth(buttons, key, other) ==> other == depth,
        (choose|any: nat| is_min_depth(buttons, key, any)) == depth,
{
    let here = choose|presses: Seq<int>| #[trigger]
        opens(buttons, presses, key) && presses.len() == depth;
    if is_min_depth(buttons, key, other) {
        let there = choose|presses: Seq<int>| #[trigger]
            opens(buttons, presses, key) && presses.len() == other;
        assert(opens(buttons, here, key));
        assert(opens(buttons, there, key));
    }
    let chosen = choose|any: nat| is_min_depth(buttons, key, any);
    assert(is_min_depth(buttons, key, chosen));
    let there = choose|presses: Seq<int>| #[trigger]
        opens(buttons, presses, key) && presses.len() == chosen;
    assert(opens(buttons, here, key));
    assert(opens(buttons, there, key));
}

/// The answer to the first part: the sum, over the machines of the text, of
/// the fewest presses that open the lock. There is none if the text does not
/// describe machines, if a lock cannot be opened, or if the sum does not fit a
/// `usize`.
pub open spec fn spec_answer_1(text: Seq<u8>) -> Option<i64> {
    match spec_parse_text(text) {
        Some(machines) => if all_open(machines) && depth_sum(machines, machines.len() as int)
            <= usize::MAX {
            Some(depth_sum(machines, machines.len() as int) as usize as i64)
        } else {
            None
        },
        None => None,
    }
}

/// Sums up the fewest presses that open the lock of each machine in `text`.
pub fn try_parse_1(text: &[u8]) -> (answer: Option<i64>)
    ensures
        answer == spec_answer_1(text@),
{
    match parse_text(text) {
        Some(machines) => {
            let ghost all = models(machines@);
            let mut sum: usize = 0;
            let mut i: usize = 0;
            while i < machines.len()
                invariant
                    i <= machines@.len(),
                    all == models(machines@),
                    spec_parse_text(text@) == Some(all),
                    sum == depth_sum(all, i as int),
                    forall|j: int|
                        0 <= j < i ==> !never_opens((#[trigger] all[j]).buttons, all[j].key),
                decreases machines@.len() - i,
            {
                let machine = &machines[i];
                assert(all[i as int] == machine@);
                match fewest_presses(machine.key, machine.buttons.as_slice()) {
                    Some(depth) => {
                        proof {
                            lemma_depth_unique(
                                machine.buttons@,
                                machine.key,
                                depth as nat,
                                depth as nat,
                            );
                            let presses = choose|presses: Seq<int>| #[trigger]
                                opens(machine.buttons@, presses, machine.key) && presses.len()
                                    == depth;
                            assert(opens(machine.buttons@, presses, machine.key));
                            assert(depth == min_depth(all[i as int]));
                        }
                        match sum.checked_add(depth) {
                            Some(more) => {
                                sum = more;
                            },
                            None => {
                                proof {
                                    assert(depth == min_depth(all[i as int]));
                                    lemma_depth_sum_grows(all, i + 1, all.len() as int);
                                }
                                return None;
                            },
                        }
                    },
                    None => {
                        proof {
                            assert(never_opens(all[i as int].buttons, all[i as int].key));
                        }
                        return None;
                    },
                }
                i += 1;
            }
            Some(#[verifier::truncate] (sum as i64))
        },
        None => None,
    }
}

/// The sum over more machines is no smaller.
pub proof fn lemma_depth_sum_grows(machines: Seq<MachineModel>, fewer: int, more: int)
    requires
        fewer <= more,
    ensures
        depth_sum(machines, fewer) <= depth_sum(machines, more),
    decreases more - fewer,
{
    if fewer < more {
        lemma_depth_sum_grows(machines, fewer, more - 1);
    }
}

/// The sum, over the machines that `text` describes, of the fewest presses
/// that open the lock.
pub fn parse_1(text: &str) -> (answer: i64)
    requires
        spec_answer_1(text.spec_bytes()) is Some,
    ensures
        Some(answer) == spec_answer_1(text.spec_bytes()),
{
    try_parse_1(text.as_bytes()).unwrap()
}

// ---------------------------------------------------------------------------
// Setting the counters
// ---------------------------------------------------------------------------

/// The fewest presses that bring the counters of a machine to their joltage,
/// or `None` if no presses do.
pub open spec fn min_presses(machine: MachineModel) -> Option<usize> {
    choose|answer: Option<usize>|
        is_min_presses(mask_rows(machine.buttons, machine.joltage.len()), machine.joltage, answer)
}

/// The machine has no more counters than a mask has bits, and its counters
/// sum to a number that fits a `usize`.
pub open spec fn countable(machine: MachineModel) -> bool {
    machine.joltage.len() <= usize::BITS && total(machine.joltage) <= usize::MAX
}

/// The counters of every machine can be counted and brought to their
/// joltage.
pub open spec fn all_set(machines: Seq<MachineModel>) -> bool {
    forall|i: int|
        0 <= i < machines.len() ==> countable(#[trigger] machines[i]) && min_presses(
            machines[i],
        ) is Some
}

/// The fewest presses that set the counters of the first `upto` machines,
/// one after the other.
pub open spec fn presses_sum(machines: Seq<MachineModel>, upto: int) -> nat
    decreases upto,
{
    if upto <= 0 {
        0
    } else {
        presses_sum(machines, upto - 1) + min_presses(machines[upto - 1])->0 as nat
    }
}

/// The sum over more machines is no smaller.
pub proof fn lemma_presses_sum_grows(machines: Seq<MachineModel>, fewer: int, more: int)
    requires
        fewer <= more,
    ensures
        presses_sum(machines, fewer) <= presses_sum(machines, more),
    decreases more - fewer,
{
    if fewer < more {
        lemma_presses_sum_grows(machines, fewer, more - 1);
    }
}

/// The answer to the second part: the sum, over the machines of the text, of
/// the fewest presses that set the counters. There is none if the text does
/// not describe machines, if the counters of a machine cannot be counted or
/// set, or if the sum does not fit a `usize`.
pub open spec fn spec_answer_2(text: Seq<u8>) -> Option<i64> {
    match spec_parse_text(text) {
        Some(machines) => if all_set(machines) && presses_sum(machines, machines.len() as int)
            <= usize::MAX {
            Some(presses_sum(machines, machines.len() as int) as usize as i64)
        } else {
            None
        },
        None => None,
    }
}

/// Sums up the fewest presses that set the counters of each machine in
/// `text`.
pub fn try_parse_2(text: &[u8]) -> (answer: Option<i64>)
    ensures
        answer == spec_answer_2(text@),
{
    match parse_text(text) {
        Some(machines) => {
            let ghost all = models(machines@);
            let mut sum: usize = 0;
            let mut i: usize = 0;
            while i < machines.len()
                invariant
                    i <= machines@.len(),
                    all == models(machines@),
                    spec_parse_text(text@) == Some(all),
                    sum == presses_sum(all, i as int),
                    forall|j: int|
                        0 <= j < i ==> countable(#[trigger] all[j]) && min_presses(
                            all[j],
                        ) is Some,
                decreases machines@.len() - i,
            {
                let machine = &machines[i];
                assert(all[i as int] == machine@);
                if machine.joltage.len() > usize::BITS as usize {
                    proof {
                        assert(!countable(all[i as int]));
                    }
                    return None;
                }
                if checked_total(machine.joltage.as_slice()).is_none() {
                    proof {
                        assert(!countable(all[i as int]));
                    }
                    return None;
                }
                let found = solve_joltage(machine);
                proof {
                    lemma_answer_unique(
                        mask_rows(machine.buttons@, machine.joltage@.len()),
                        machine.joltage@,
                        found,
                        min_presses(machine@),
                    );
                    assert(found == min_presses(all[i as int]));
                }
                match found {
                    Some(presses) => {
                        match sum.checked_add(presses) {
                            Some(more) => {
                                sum = more;
                            },
                            None => {
                                proof {
                                    assert(found == min_presses(all[i as int]));
                                    lemma_presses_sum_grows(all, i + 1, all.len() as int);
                                }
                                return None;
                            },
                        }
                    },
                    None => {
                        proof {
                            assert(min_presses(all[i as int]) is None);
                        }
                        return None;
                    },
                }
                i += 1;
            }
            Some(#[verifier::truncate] (sum as i64))
        },
        None => None,
    }
}

/// The sum, over the machines that `text` describes, of the fewest presses
/// that set the counters.
pub fn parse_2(text: &str) -> (answer: i64)
    requires
        spec_answer_2(text.spec_bytes()) is Some,
    ensures
        Some(answer) == spec_answer_2(text.spec_bytes()),
{
    try_parse_2(text.as_bytes()).unwrap()
}

} // verus!

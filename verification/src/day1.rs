//! A dial with a hundred marks that is turned left and right.
//!
//! A turn is written as `L` or `R` followed by a number of clicks. Whatever
//! else stands in the text is passed over. The dial starts at mark 50.

use vstd::prelude::*;
use vstd::string::StringSliceAdditionalSpecFns;

verus! {

/// One more than the largest number of clicks that a turn can have. A longer
/// number reads as this.
pub const TOO_MANY: i64 = 0x8000_0000;

/// A turn: to the right or not, and by how many clicks.
pub type Turn = (bool, i64);

/// How far the reading of a text has come.
pub struct Scan {
    /// The turns read so far.
    pub turns: Seq<Turn>,
    /// Whether the letter of a turn was the last sign read.
    pub lettered: bool,
    /// Whether digits of a turn were the last signs read.
    pub counting: bool,
    /// The direction of the turn that is being read, if one is.
    pub right: bool,
    /// The clicks of the turn that is being read, as far as they were read.
    pub clicks: i64,
}

/// Whether a byte is the letter of a turn.
pub open spec fn is_letter(byte: u8) -> bool {
    byte == 76 || byte == 82
}

/// Whether a byte is a digit.
pub open spec fn is_digit(byte: u8) -> bool {
    48 <= byte <= 57
}

/// The clicks read so far with one more digit.
pub open spec fn more_clicks(clicks: i64, byte: u8) -> i64 {
    if clicks * 10 + (byte - 48) >= TOO_MANY {
        TOO_MANY
    } else {
        (clicks * 10 + (byte - 48)) as i64
    }
}

/// The turns read so far, with the one that is being read if it has its
/// first digit.
pub open spec fn turns_of(scan: Scan) -> Seq<Turn> {
    if scan.counting {
        scan.turns.push((scan.right, scan.clicks))
    } else {
        scan.turns
    }
}

/// The reading after one more byte. A letter begins a turn; digits after a
/// letter are its clicks; the turn ends where the digits end.
pub open spec fn scan_step(scan: Scan, byte: u8) -> Scan {
    if (scan.lettered || scan.counting) && is_digit(byte) {
        Scan {
            turns: scan.turns,
            lettered: false,
            counting: true,
            right: scan.right,
            clicks: more_clicks(if scan.counting {
                scan.clicks
            } else {
                0
            }, byte),
        }
    } else {
        Scan {
            turns: turns_of(scan),
            lettered: is_letter(byte),
            counting: false,
            right: byte == 82,
            clicks: 0,
        }
    }
}

/// The reading of a whole text.
pub open spec fn scan(text: Seq<u8>) -> Scan
    decreases text.len(),
{
    if text.len() == 0 {
        Scan { turns: Seq::empty(), lettered: false, counting: false, right: false, clicks: 0 }
    } else {
        scan_step(scan(text.drop_last()), text.last())
    }
}

/// The turns that a text holds.
pub open spec fn spec_parse_text(text: Seq<u8>) -> Seq<Turn> {
    turns_of(scan(text))
}

/// Reads the turns that a text holds.
pub fn parse_text(text: &[u8]) -> (turns: Vec<Turn>)
    ensures
        turns@ == spec_parse_text(text@),
{
    let mut turns: Vec<Turn> = Vec::new();
    let mut lettered = false;
    let mut counting = false;
    let mut right = false;
    let mut clicks: i64 = 0;
    let mut i: usize = 0;
    assert(text@.take(0) =~= Seq::<u8>::empty());
    while i < text.len()
        invariant
            i <= text@.len(),
            0 <= clicks <= TOO_MANY,
            scan(text@.take(i as int)) == (Scan { turns: turns@, lettered, counting, right, clicks }),
        decreases text@.len() - i,
    {
        let byte = text[i];
        proof {
            let longer = text@.take(i + 1);
            assert(longer.drop_last() =~= text@.take(i as int));
            assert(longer.last() == byte);
        }
        if (lettered || counting) && byte >= 48 && byte <= 57 {
            let digit: i64 = (byte - 48) as i64;
            let so_far: i64 = if counting {
                clicks
            } else {
                0
            };
            clicks = if so_far * 10 + digit >= TOO_MANY {
                TOO_MANY
            } else {
                so_far * 10 + digit
            };
            lettered = false;
            counting = true;
        } else {
            if counting {
                turns.push((right, clicks));
            }
            lettered = byte == 76 || byte == 82;
            counting = false;
            right = byte == 82;
            clicks = 0;
        }
        i += 1;
    }
    assert(text@.take(text@.len() as int) =~= text@);
    if counting {
        turns.push((right, clicks));
    }
    turns
}

/// The remainder of a division by a hundred that takes the sign of what is
/// divided.
pub open spec fn rem_100(value: int) -> int {
    if value >= 0 {
        value % 100
    } else {
        -((-value) % 100)
    }
}

/// The mark at which the dial stands, and how often it stopped at zero.
pub struct Dial {
    /// The mark.
    pub pos: i32,
    /// The count of zeros.
    pub zeros: i32,
}

/// The dial after one more turn, counting a stop at zero. There is none if
/// the clicks, the sum of mark and clicks, or the count do not fit an `i32`.
pub open spec fn turn_1(dial: Dial, turn: Turn) -> Option<Dial> {
    let moved = dial.pos + if turn.0 {
        turn.1 as int
    } else {
        100 - turn.1
    };
    if turn.1 >= TOO_MANY || moved > i32::MAX {
        None
    } else if rem_100(moved) == 0 {
        if dial.zeros == i32::MAX {
            None
        } else {
            Some(Dial { pos: 0, zeros: (dial.zeros + 1) as i32 })
        }
    } else {
        Some(Dial { pos: rem_100(moved) as i32, zeros: dial.zeros })
    }
}

/// The dial after all turns, one after the other.
pub open spec fn dial_1(turns: Seq<Turn>) -> Option<Dial>
    decreases turns.len(),
{
    if turns.len() == 0 {
        Some(Dial { pos: 50, zeros: 0 })
    } else {
        match dial_1(turns.drop_last()) {
            Some(dial) => turn_1(dial, turns.last()),
            None => None,
        }
    }
}

/// The answer to the first part: how often the dial stops at zero.
pub open spec fn spec_answer_1(text: Seq<u8>) -> Option<i64> {
    match dial_1(spec_parse_text(text)) {
        Some(dial) => Some(dial.zeros as i64),
        None => None,
    }
}

/// The remainder of a division by a hundred.
pub fn rem_hundred(value: i32) -> (rest: i32)
    requires
        value > i32::MIN,
    ensures
        rest == rem_100(value as int),
        -100 < rest < 100,
{
    if value >= 0 {
        value % 100
    } else {
        -((-value) % 100)
    }
}

/// Turns the dial once, counting a stop at zero.
pub fn apply_1(dial: Dial, turn: Turn) -> (after: Option<Dial>)
    requires
        -100 < dial.pos < 100,
        0 <= turn.1 <= TOO_MANY,
    ensures
        after == turn_1(dial, turn),
        after matches Some(d) ==> -100 < d.pos < 100,
{
    if turn.1 >= TOO_MANY {
        return None;
    }
    let count: i32 = turn.1 as i32;
    let step: i32 = if turn.0 {
        count
    } else {
        100 - count
    };
    match dial.pos.checked_add(step) {
        Some(moved) => {
            let pos = rem_hundred(moved);
            if pos == 0 {
                if dial.zeros == i32::MAX {
                    None
                } else {
                    Some(Dial { pos: 0, zeros: dial.zeros + 1 })
                }
            } else {
                Some(Dial { pos, zeros: dial.zeros })
            }
        },
        None => None,
    }
}

/// Counts how often the dial stops at zero.
pub fn try_parse_1(text: &[u8]) -> (answer: Option<i64>)
    ensures
        answer == spec_answer_1(text@),
{
    let turns = parse_text(text);
    let mut dial: Option<Dial> = Some(Dial { pos: 50, zeros: 0 });
    let mut i: usize = 0;
    assert(turns@.take(0) =~= Seq::<Turn>::empty());
    proof {
        lemma_clicks_bounded(text@);
    }
    while i < turns.len()
        invariant
            i <= turns@.len(),
            turns@ == spec_parse_text(text@),
            dial == dial_1(turns@.take(i as int)),
            dial matches Some(d) ==> -100 < d.pos < 100,
            forall|j: int| 0 <= j < turns@.len() ==> 0 <= (#[trigger] turns@[j]).1 <= TOO_MANY,
        decreases turns@.len() - i,
    {
        proof {
            let longer = turns@.take(i + 1);
            assert(longer.drop_last() =~= turns@.take(i as int));
            assert(longer.last() == turns@[i as int]);
        }
        dial = match dial {
            Some(d) => apply_1(d, turns[i]),
            None => None,
        };
        i += 1;
    }
    assert(turns@.take(turns@.len() as int) =~= turns@);
    match dial {
        Some(d) => Some(d.zeros as i64),
        None => None,
    }
}

/// The clicks of every turn that a text holds are within bounds.
pub proof fn lemma_clicks_bounded(text: Seq<u8>)
    ensures
        0 <= scan(text).clicks <= TOO_MANY,
        forall|j: int|
            0 <= j < scan(text).turns.len() ==> 0 <= (#[trigger] scan(text).turns[j]).1 <= TOO_MANY,
        forall|j: int|
            0 <= j < spec_parse_text(text).len() ==> 0 <= (#[trigger] spec_parse_text(text)[j]).1
                <= TOO_MANY,
    decreases text.len(),
{
    if text.len() > 0 {
        lemma_clicks_bounded(text.drop_last());
        let before = scan(text.drop_last());
        let after = scan(text);
        assert forall|j: int| 0 <= j < after.turns.len() implies 0 <= (#[trigger] after.turns[j]).1
            <= TOO_MANY by {
            if j < before.turns.len() {
                assert(after.turns[j] == before.turns[j]);
            }
        }
    }
    assert forall|j: int| 0 <= j < spec_parse_text(text).len() implies 0 <= (
    #[trigger] spec_parse_text(text)[j]).1 <= TOO_MANY by {
        if j < scan(text).turns.len() {
            assert(spec_parse_text(text)[j] == scan(text).turns[j]);
        }
    }
}

/// How often the dial stops at zero when it is turned as `text` says.
pub fn parse_1(text: &str) -> (answer: i64)
    requires
        spec_answer_1(text.spec_bytes()) is Some,
    ensures
        Some(answer) == spec_answer_1(text.spec_bytes()),
{
    try_parse_1(text.as_bytes()).unwrap()
}

/// The dial after one more turn, counting every time it comes to zero:
/// once for each full round, and once more if what is left of the turn
/// reaches or passes zero.
pub open spec fn turn_2(dial: Dial, turn: Turn) -> Option<Dial> {
    let rounds = turn.1 / 100;
    let rest = turn.1 % 100;
    let passes: int = if rest == 0 {
        0
    } else if !turn.0 {
        if dial.pos > 0 && rest >= dial.pos {
            1
        } else {
            0
        }
    } else if rest + dial.pos >= 100 {
        1
    } else {
        0
    };
    let pos = if rest == 0 {
        dial.pos as int
    } else if turn.0 {
        (dial.pos + rest) % 100
    } else {
        (dial.pos + 100 - rest) % 100
    };
    if turn.1 >= TOO_MANY || dial.zeros + rounds + passes > i32::MAX {
        None
    } else {
        Some(Dial { pos: pos as i32, zeros: (dial.zeros + rounds + passes) as i32 })
    }
}

/// The dial after all turns, one after the other.
pub open spec fn dial_2(turns: Seq<Turn>) -> Option<Dial>
    decreases turns.len(),
{
    if turns.len() == 0 {
        Some(Dial { pos: 50, zeros: 0 })
    } else {
        match dial_2(turns.drop_last()) {
            Some(dial) => turn_2(dial, turns.last()),
            None => None,
        }
    }
}

/// The answer to the second part: how often the dial comes to zero, during
/// a turn or at its end.
pub open spec fn spec_answer_2(text: Seq<u8>) -> Option<i64> {
    match dial_2(spec_parse_text(text)) {
        Some(dial) => Some(dial.zeros as i64),
        None => None,
    }
}

/// Turns the dial once, counting every time it comes to zero.
pub fn apply_2(dial: Dial, turn: Turn) -> (after: Option<Dial>)
    requires
        0 <= dial.pos < 100,
        0 <= dial.zeros,
        0 <= turn.1 <= TOO_MANY,
    ensures
        after == turn_2(dial, turn),
        after matches Some(d) ==> 0 <= d.pos < 100 && 0 <= d.zeros,
{
    if turn.1 >= TOO_MANY {
        return None;
    }
    let count: i32 = turn.1 as i32;
    let rounds: i32 = count / 100;
    let rest: i32 = count % 100;
    let mut passes: i32 = 0;
    let mut pos: i32 = dial.pos;
    if rest != 0 {
        if !turn.0 {
            if dial.pos > 0 && rest >= dial.pos {
                passes = 1;
            }
            pos = (dial.pos + 100 - rest) % 100;
        } else {
            if rest + dial.pos >= 100 {
                passes = 1;
            }
            pos = (dial.pos + rest) % 100;
        }
    }
    match dial.zeros.checked_add(rounds) {
        Some(more) => match more.checked_add(passes) {
            Some(zeros) => Some(Dial { pos, zeros }),
            None => None,
        },
        None => None,
    }
}

/// Counts how often the dial comes to zero.
pub fn try_parse_2(text: &[u8]) -> (answer: Option<i64>)
    ensures
        answer == spec_answer_2(text@),
{
    let turns = parse_text(text);
    let mut dial: Option<Dial> = Some(Dial { pos: 50, zeros: 0 });
    let mut i: usize = 0;
    assert(turns@.take(0) =~= Seq::<Turn>::empty());
    proof {
        lemma_clicks_bounded(text@);
    }
    while i < turns.len()
        invariant
            i <= turns@.len(),
            turns@ == spec_parse_text(text@),
            dial == dial_2(turns@.take(i as int)),
            dial matches Some(d) ==> 0 <= d.pos < 100 && 0 <= d.zeros,
            forall|j: int| 0 <= j < turns@.len() ==> 0 <= (#[trigger] turns@[j]).1 <= TOO_MANY,
        decreases turns@.len() - i,
    {
        proof {
            let longer = turns@.take(i + 1);
            assert(longer.drop_last() =~= turns@.take(i as int));
            assert(longer.last() == turns@[i as int]);
        }
        dial = match dial {
            Some(d) => apply_2(d, turns[i]),
            None => None,
        };
        i += 1;
    }
    assert(turns@.take(turns@.len() as int) =~= turns@);
    match dial {
        Some(d) => Some(d.zeros as i64),
        None => None,
    }
}

/// How often the dial comes to zero when it is turned as `text` says.
pub fn parse_2(text: &str) -> (answer: i64)
    requires
        spec_answer_2(text.spec_bytes()) is Some,
    ensures
        Some(answer) == spec_answer_2(text.spec_bytes()),
{
    try_parse_2(text.as_bytes()).unwrap()
}

} // verus!

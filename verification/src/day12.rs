//! Presents of given shapes, and the spaces under trees that can hold
//! them.
//!
//! The text lists shapes and spaces. A shape begins with a line that holds
//! its number and a colon; the lines that follow draw it with `#` and `.`. A
//! space is a line that holds its two sides with an `x` between them, a colon
//! and a blank, and then how many presents of every shape it shall hold, with
//! single blanks between the numbers. Any other line is passed over. A space
//! counts as fit when it has at least as many cells as its presents cover.

use crate::text::{
    all_digits, digits_end, is_digit, lemma_digits_end, lines, nonempty_lines, parse_usize,
    parse_usize_list, scan_digits, spec_parse_usize, spec_parse_usize_fields, split, views,
};
use vstd::prelude::*;
use vstd::slice::slice_subrange;
use vstd::string::StringSliceAdditionalSpecFns;

verus! {

/// The sign of a cell that a shape covers.
pub const HASH: u8 = 35;

/// The sign of a cell that a shape leaves free.
pub const DOT: u8 = 46;

/// The colon.
pub const COLON: u8 = 58;

/// The sign between the two sides of a space.
pub const CROSS: u8 = 120;

/// The blank.
pub const BLANK: u8 = 32;

/// A space and the presents that it shall hold.
#[derive(Debug, Clone)]
pub struct Goal {
    /// One side of the space.
    pub x: usize,
    /// The other side of the space.
    pub y: usize,
    /// How many presents of every shape the space shall hold.
    pub reqs: Vec<usize>,
}

/// A space as specifications speak of it.
pub struct GoalModel {
    /// One side of the space.
    pub x: usize,
    /// The other side of the space.
    pub y: usize,
    /// How many presents of every shape the space shall hold.
    pub reqs: Seq<usize>,
}

impl View for Goal {
    type V = GoalModel;

    open spec fn view(&self) -> GoalModel {
        GoalModel { x: self.x, y: self.y, reqs: self.reqs@ }
    }
}

/// The spaces of a list as specifications speak of them.
pub open spec fn goal_views(goals: Seq<Goal>) -> Seq<GoalModel> {
    Seq::new(goals.len(), |i: int| goals[i]@)
}

/// Whether a line begins a shape: digits and then a colon, and nothing
/// else.
pub open spec fn is_shape_number(line: Seq<u8>) -> bool {
    line.len() >= 2 && line.last() == COLON && digits_end(line, 0) == line.len() - 1
}

/// Where the signs of a shape that begin at `from` end.
pub open spec fn drawing_end(line: Seq<u8>, from: int) -> int
    decreases line.len() - from,
{
    if 0 <= from < line.len() && (line[from] == HASH || line[from] == DOT) {
        drawing_end(line, from + 1)
    } else {
        from
    }
}

/// How many of the first `upto` bytes of a line are the sign of a covered
/// cell.
pub open spec fn covered(line: Seq<u8>, upto: int) -> int
    decreases upto,
{
    if upto <= 0 {
        0
    } else {
        covered(line, upto - 1) + if line[upto - 1] == HASH {
            1int
        } else {
            0int
        }
    }
}

/// Whether a space begins at `at`: digits, the cross, digits, a colon and
/// a blank.
pub open spec fn goal_at(line: Seq<u8>, at: int) -> bool {
    let cross = digits_end(line, at);
    let colon = digits_end(line, cross + 1);
    &&& 0 <= at < line.len()
    &&& is_digit(line[at])
    &&& cross + 1 < line.len()
    &&& line[cross] == CROSS
    &&& is_digit(line[cross + 1])
    &&& colon + 1 < line.len()
    &&& line[colon] == COLON
    &&& line[colon + 1] == BLANK
}

/// Where the first space at or after `from` begins, if there is one.
pub open spec fn first_goal(line: Seq<u8>, from: int) -> Option<int>
    decreases line.len() - from,
{
    if from < 0 || from >= line.len() {
        None
    } else if goal_at(line, from) {
        Some(from)
    } else {
        first_goal(line, from + 1)
    }
}

/// What a line says of a space.
pub enum Found {
    /// The line holds no space.
    Nothing,
    /// The line holds a space, but one of its numbers cannot be read.
    Spoilt,
    /// The space that the line holds.
    Space(GoalModel),
}

/// What a line says of a space: the first space in it, read with all that
/// follows its colon and blank as the numbers of presents.
pub open spec fn spec_parse_goal(line: Seq<u8>) -> Found {
    match first_goal(line, 0) {
        None => Found::Nothing,
        Some(at) => {
            let cross = digits_end(line, at);
            let colon = digits_end(line, cross + 1);
            match (
                spec_parse_usize(line.subrange(at, cross)),
                spec_parse_usize(line.subrange(cross + 1, colon)),
                spec_parse_usize_fields(split(line.skip(colon + 2), BLANK)),
            ) {
                (Some(x), Some(y), Some(reqs)) => Found::Space(GoalModel { x, y, reqs }),
                _ => Found::Spoilt,
            }
        },
    }
}

/// Finds the first space in a line: where it begins, where its cross
/// stands and where its colon stands.
pub fn find_goal(line: &[u8]) -> (found: Option<(usize, usize, usize)>)
    ensures
        found is Some <==> first_goal(line@, 0) is Some,
        found matches Some(places) ==> first_goal(line@, 0) == Some(places.0 as int) && places.1
            == digits_end(line@, places.0 as int) && places.2 == digits_end(
            line@,
            places.1 + 1,
        ) && places.0 < places.1 < places.2 && places.2 + 1 < line@.len(),
{
    let mut at: usize = 0;
    while at < line.len()
        invariant
            at <= line@.len(),
            first_goal(line@, 0) == first_goal(line@, at as int),
        decreases line@.len() - at,
    {
        if line[at] >= 48 && line[at] <= 57 {
            let cross = scan_digits(line, at);
            proof {
                lemma_digits_end(line@, at as int);
                assert(cross > at);
            }
            if cross < line.len() - 1 && line[cross] == CROSS && line[cross + 1] >= 48 && line[cross
                + 1] <= 57 {
                let colon = scan_digits(line, cross + 1);
                proof {
                    lemma_digits_end(line@, cross + 1);
                    assert(colon > cross + 1);
                }
                if colon < line.len() - 1 && line[colon] == COLON && line[colon + 1] == BLANK {
                    return Some((at, cross, colon));
                }
            }
        }
        at += 1;
    }
    None
}

/// What a line says of a space, as `parse_goal` gives it.
pub enum Reading {
    /// The line holds no space.
    Nothing,
    /// The line holds a space, but one of its numbers cannot be read.
    Spoilt,
    /// The space that the line holds.
    Space(Goal),
}

/// Whether a reading says what a line was found to say.
pub open spec fn reads_as(reading: Reading, found: Found) -> bool {
    match reading {
        Reading::Nothing => found is Nothing,
        Reading::Spoilt => found is Spoilt,
        Reading::Space(goal) => found == Found::Space(goal@),
    }
}

/// Reads the space that a line holds.
pub fn parse_goal(line: &[u8]) -> (reading: Reading)
    ensures
        reads_as(reading, spec_parse_goal(line@)),
{
    match find_goal(line) {
        None => Reading::Nothing,
        Some((at, cross, colon)) => {
            let x = parse_usize(slice_subrange(line, at, cross));
            let y = parse_usize(slice_subrange(line, cross + 1, colon));
            let end = line.len();
            let rest = slice_subrange(line, colon + 2, end);
            assert(rest@ =~= line@.skip(colon + 2));
            let reqs = parse_usize_list(rest, BLANK);
            match (x, y, reqs) {
                (Some(x), Some(y), Some(reqs)) => Reading::Space(Goal { x, y, reqs }),
                _ => Reading::Spoilt,
            }
        },
    }
}

/// The shapes and spaces of a text.
pub struct Plan {
    /// How many cells every shape covers.
    pub shapes: Seq<usize>,
    /// The spaces.
    pub goals: Seq<GoalModel>,
}

/// The plan after one more line. There is none if the line draws a shape
/// before any shape has begun, if a shape covers more cells than can be
/// counted, or if the line holds a space with a number that cannot be read.
pub open spec fn read_line(plan: Plan, line: Seq<u8>) -> Option<Plan> {
    if is_shape_number(line) {
        Some(Plan { shapes: plan.shapes.push(0), goals: plan.goals })
    } else if drawing_end(line, 0) > 0 {
        if plan.shapes.len() == 0 || plan.shapes.last() + covered(line, drawing_end(line, 0))
            > usize::MAX {
            None
        } else {
            Some(
                Plan {
                    shapes: plan.shapes.update(
                        plan.shapes.len() - 1,
                        (plan.shapes.last() + covered(line, drawing_end(line, 0))) as usize,
                    ),
                    goals: plan.goals,
                },
            )
        }
    } else {
        match spec_parse_goal(line) {
            Found::Nothing => Some(plan),
            Found::Spoilt => None,
            Found::Space(goal) => Some(Plan { shapes: plan.shapes, goals: plan.goals.push(goal) }),
        }
    }
}

/// The plan that the lines make.
pub open spec fn read_lines(rows: Seq<Seq<u8>>) -> Option<Plan>
    decreases rows.len(),
{
    if rows.len() == 0 {
        Some(Plan { shapes: Seq::empty(), goals: Seq::empty() })
    } else {
        match read_lines(rows.drop_last()) {
            Some(plan) => read_line(plan, rows.last()),
            None => None,
        }
    }
}

/// Once a line cannot be read, no plan comes of the text.
pub proof fn lemma_read_fails(rows: Seq<Seq<u8>>, upto: int)
    requires
        0 <= upto <= rows.len(),
        read_lines(rows.take(upto)) is None,
    ensures
        read_lines(rows) is None,
    decreases rows.len() - upto,
{
    if upto < rows.len() {
        let longer = rows.take(upto + 1);
        assert(longer.drop_last() =~= rows.take(upto));
        lemma_read_fails(rows, upto + 1);
    } else {
        assert(rows.take(upto) =~= rows);
    }
}

/// The plan that a text describes, made of its lines that are not empty.
pub open spec fn spec_parse_text(text: Seq<u8>) -> Option<Plan> {
    read_lines(nonempty_lines(text))
}

/// Tests whether a line begins a shape.
pub fn begins_shape(line: &[u8]) -> (begins: bool)
    ensures
        begins == is_shape_number(line@),
{
    if line.len() < 2 || line[line.len() - 1] != COLON {
        return false;
    }
    scan_digits(line, 0) == line.len() - 1
}

/// Counts the covered cells among the signs of a shape with which a line
/// begins, and says how many signs they are.
pub fn count_drawing(line: &[u8]) -> (drawing: (usize, usize))
    ensures
        drawing.0 == drawing_end(line@, 0),
        drawing.1 == covered(line@, drawing_end(line@, 0)),
        drawing.1 <= drawing.0 <= line@.len(),
{
    let mut end: usize = 0;
    let mut count: usize = 0;
    while end < line.len() && (line[end] == HASH || line[end] == DOT)
        invariant
            end <= line@.len(),
            count <= end,
            drawing_end(line@, 0) == drawing_end(line@, end as int),
            count == covered(line@, end as int),
        decreases line@.len() - end,
    {
        if line[end] == HASH {
            count += 1;
        }
        end += 1;
    }
    (end, count)
}

/// Reads the shapes and spaces of a text: how many cells every shape
/// covers, and the spaces.
pub fn parse_text(text: &[u8]) -> (plan: Option<(Vec<usize>, Vec<Goal>)>)
    ensures
        plan is Some <==> spec_parse_text(text@) is Some,
        plan matches Some(read) ==> spec_parse_text(text@) == Some(
            Plan { shapes: read.0@, goals: goal_views(read.1@) },
        ),
{
    let found = lines(text);
    let ghost rows = nonempty_lines(text@);
    let mut shapes: Vec<usize> = Vec::new();
    let mut goals: Vec<Goal> = Vec::new();
    let mut i: usize = 0;
    assert(rows.take(0) =~= Seq::<Seq<u8>>::empty());
    assert(goal_views(goals@) =~= Seq::<GoalModel>::empty());
    while i < found.len()
        invariant
            i <= found@.len(),
            views(found@) == rows,
            rows == nonempty_lines(text@),
            read_lines(rows.take(i as int)) == Some(
                Plan { shapes: shapes@, goals: goal_views(goals@) },
            ),
        decreases found@.len() - i,
    {
        let line = found[i];
        let ghost before = Plan { shapes: shapes@, goals: goal_views(goals@) };
        proof {
            let longer = rows.take(i + 1);
            assert(longer.drop_last() =~= rows.take(i as int));
            assert(longer.last() == line@);
            assert(read_lines(longer) == read_line(before, line@));
        }
        let mut failed: bool = false;
        if begins_shape(line) {
            shapes.push(0);
        } else {
            let (end, count) = count_drawing(line);
            if end > 0 {
                let last = shapes.len();
                if last == 0 {
                    failed = true;
                } else {
                    match shapes[last - 1].checked_add(count) {
                        Some(sum) => {
                            shapes.set(last - 1, sum);
                        },
                        None => {
                            failed = true;
                        },
                    }
                }
            } else {
                match parse_goal(line) {
                    Reading::Nothing => {},
                    Reading::Spoilt => {
                        failed = true;
                    },
                    Reading::Space(goal) => {
                        let ghost old_goals = goals@;
                        goals.push(goal);
                        assert(goal_views(goals@) =~= goal_views(old_goals).push(goal@));
                    },
                }
            }
        }
        if failed {
            proof {
                lemma_read_fails(rows, i + 1);
            }
            return None;
        }
        i += 1;
    }
    assert(rows.take(rows.len() as int) =~= rows);
    Some((shapes, goals))
}

// ---------------------------------------------------------------------------
// Which spaces are fit
// ---------------------------------------------------------------------------

/// How many cells the presents of the first `upto` shapes cover together.
pub open spec fn needed(shapes: Seq<usize>, reqs: Seq<usize>, upto: int) -> int
    decreases upto,
{
    if upto <= 0 {
        0
    } else {
        needed(shapes, reqs, upto - 1) + shapes[upto - 1] * reqs[upto - 1]
    }
}

/// The presents of more shapes cover no fewer cells.
pub proof fn lemma_needed_grows(shapes: Seq<usize>, reqs: Seq<usize>, upto: int, later: int)
    requires
        upto <= later,
    ensures
        0 <= needed(shapes, reqs, upto) <= needed(shapes, reqs, later),
    decreases later,
{
    if later > 0 {
        let cells = shapes[later - 1] as int;
        let count = reqs[later - 1] as int;
        assert(0 <= cells * count) by (nonlinear_arith)
            requires
                0 <= cells,
                0 <= count,
        ;
        if upto < later {
            lemma_needed_grows(shapes, reqs, upto, later - 1);
        } else {
            lemma_needed_grows(shapes, reqs, upto - 1, later - 1);
        }
    }
}

/// Whether a space has at least as many cells as its presents cover.
/// There is no answer if the space asks for presents of more shapes than there
/// are, or if the cells of the space or of the presents are more than can be
/// counted.
pub open spec fn spec_is_fit(shapes: Seq<usize>, goal: GoalModel) -> Option<bool> {
    if goal.reqs.len() > shapes.len() || goal.x * goal.y > usize::MAX || needed(
        shapes,
        goal.reqs,
        goal.reqs.len() as int,
    ) > usize::MAX {
        None
    } else {
        Some(goal.x * goal.y >= needed(shapes, goal.reqs, goal.reqs.len() as int))
    }
}

/// Tests whether a space has at least as many cells as its presents
/// cover.
pub fn is_fit(shapes: &Vec<usize>, goal: &Goal) -> (fit: Option<bool>)
    ensures
        fit == spec_is_fit(shapes@, goal@),
{
    let n = goal.reqs.len();
    if n > shapes.len() {
        return None;
    }
    let avail: usize = match goal.x.checked_mul(goal.y) {
        Some(avail) => avail,
        None => {
            return None;
        },
    };
    let mut total: usize = 0;
    let mut i: usize = 0;
    while i < n
        invariant
            i <= n,
            n == goal.reqs@.len(),
            n <= shapes@.len(),
            total == needed(shapes@, goal.reqs@, i as int),
        decreases n - i,
    {
        proof {
            lemma_needed_grows(shapes@, goal.reqs@, i as int, i + 1);
            lemma_needed_grows(shapes@, goal.reqs@, i + 1, n as int);
        }
        let cells: usize = match shapes[i].checked_mul(goal.reqs[i]) {
            Some(cells) => cells,
            None => {
                return None;
            },
        };
        total = match total.checked_add(cells) {
            Some(sum) => sum,
            None => {
                return None;
            },
        };
        i += 1;
    }
    Some(avail >= total)
}

/// How many of the first `upto` spaces are fit. There is no answer if
/// there is none for one of the spaces.
pub open spec fn fit_upto(shapes: Seq<usize>, goals: Seq<GoalModel>, upto: int) -> Option<int>
    decreases upto,
{
    if upto <= 0 {
        Some(0int)
    } else {
        match (fit_upto(shapes, goals, upto - 1), spec_is_fit(shapes, goals[upto - 1])) {
            (Some(count), Some(fit)) => Some(
                count + if fit {
                    1int
                } else {
                    0int
                },
            ),
            _ => None,
        }
    }
}

/// Once there is no answer for a space, there is none for the spaces
/// together.
pub proof fn lemma_fit_fails(shapes: Seq<usize>, goals: Seq<GoalModel>, upto: int, later: int)
    requires
        0 <= upto <= later,
        fit_upto(shapes, goals, upto) is None,
    ensures
        fit_upto(shapes, goals, later) is None,
    decreases later - upto,
{
    if upto < later {
        lemma_fit_fails(shapes, goals, upto, later - 1);
    }
}

/// The answer: how many spaces are fit. There is none if the text cannot
/// be read, if there is none for one of the spaces, or if the spaces are too
/// many to count.
pub open spec fn spec_answer_1(text: Seq<u8>) -> Option<i64> {
    match spec_parse_text(text) {
        Some(plan) => match fit_upto(plan.shapes, plan.goals, plan.goals.len() as int) {
            Some(count) => if count <= i64::MAX {
                Some(count as i64)
            } else {
                None
            },
            None => None,
        },
        None => None,
    }
}

/// Counts the spaces that are fit.
pub fn try_parse_1(text: &[u8]) -> (answer: Option<i64>)
    ensures
        answer == spec_answer_1(text@),
{
    let (shapes, goals) = match parse_text(text) {
        Some(plan) => plan,
        None => {
            return None;
        },
    };
    let ghost models = goal_views(goals@);
    let mut count: u64 = 0;
    let mut i: usize = 0;
    while i < goals.len()
        invariant
            i <= goals@.len(),
            count <= i,
            models == goal_views(goals@),
            spec_parse_text(text@) == Some(Plan { shapes: shapes@, goals: models }),
            fit_upto(shapes@, models, i as int) == Some(count as int),
        decreases goals@.len() - i,
    {
        assert(models[i as int] == goals@[i as int]@);
        match is_fit(&shapes, &goals[i]) {
            Some(fit) => {
                if fit {
                    count += 1;
                }
            },
            None => {
                proof {
                    assert(fit_upto(shapes@, models, i + 1) is None);
                    lemma_fit_fails(shapes@, models, i + 1, models.len() as int);
                }
                return None;
            },
        }
        i += 1;
    }
    if count > 0x7fff_ffff_ffff_ffff {
        None
    } else {
        Some(count as i64)
    }
}

/// How many spaces are fit.
pub fn parse_1(text: &str) -> (answer: i64)
    requires
        spec_answer_1(text.spec_bytes()) is Some,
    ensures
        Some(answer) == spec_answer_1(text.spec_bytes()),
{
    try_parse_1(text.as_bytes()).unwrap()
}

} // verus!

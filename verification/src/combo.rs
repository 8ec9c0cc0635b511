//! Fewest button presses that add up to a vector of counters.
//!
//! Every button adds a fixed row of zeros and ones to the counters. A
//! solution is a sequence of presses after which every counter shows its
//! target; [`is_min_presses`] says what the length of a shortest one is, and
//! [`subsolve`] computes it by trying every multiplicity of the first button
//! and recursing on the others, remembering subgoals in a
//! [`SolutionCache`].

use crate::cache::{Entry, SolutionCache};
use crate::machine::Machine;
use vstd::prelude::*;
use vstd::slice::{slice_subrange, slice_to_vec};

verus! {

// ---------------------------------------------------------------------------
// What a solution is
// ---------------------------------------------------------------------------

/// The rows of increments that the buttons stand for.
pub open spec fn rows(buttons: Seq<Vec<usize>>) -> Seq<Seq<usize>> {
    Seq::new(buttons.len(), |i: int| buttons[i]@)
}

/// What counter `k` shows after the buttons named in `presses` have been
/// pressed, starting from zero.
pub open spec fn counter_after(buttons: Seq<Seq<usize>>, presses: Seq<int>, k: int) -> nat
    decreases presses.len(),
{
    if presses.len() == 0 {
        0
    } else {
        (counter_after(buttons, presses.drop_last(), k) + buttons[presses.last()][k]) as nat
    }
}

/// Every press names one of `n` buttons.
pub open spec fn valid_presses(n: nat, presses: Seq<int>) -> bool {
    forall|j: int| 0 <= j < presses.len() ==> 0 <= #[trigger] presses[j] < n
}

/// Pressing `presses` brings every counter to its target.
pub open spec fn reaches(buttons: Seq<Seq<usize>>, presses: Seq<int>, target: Seq<usize>) -> bool {
    &&& valid_presses(buttons.len(), presses)
    &&& forall|k: int|
        0 <= k < target.len() ==> #[trigger] counter_after(buttons, presses, k) == target[k]
}

/// `answer` is the length of a shortest sequence of presses that reaches
/// `target`, or `None` when no sequence does.
pub open spec fn is_min_presses(
    buttons: Seq<Seq<usize>>,
    target: Seq<usize>,
    answer: Option<usize>,
) -> bool {
    match answer {
        Some(n) => {
            &&& exists|presses: Seq<int>| #[trigger]
                reaches(buttons, presses, target) && presses.len() == n
            &&& forall|presses: Seq<int>| #[trigger]
                reaches(buttons, presses, target) ==> n <= presses.len()
        },
        None => forall|presses: Seq<int>| !#[trigger] reaches(buttons, presses, target),
    }
}

/// Every button has an increment of zero or one for each of the first
/// `width` counters.
pub open spec fn binary_rows(buttons: Seq<Seq<usize>>, width: nat) -> bool {
    &&& forall|i: int| 0 <= i < buttons.len() ==> (#[trigger] buttons[i]).len() >= width
    &&& forall|i: int, k: int|
        0 <= i < buttons.len() && 0 <= k < width ==> #[trigger] buttons[i][k] <= 1
}

/// Every counter of `target` is zero.
pub open spec fn all_zero(target: Seq<usize>) -> bool {
    forall|k: int| 0 <= k < target.len() ==> #[trigger] target[k] == 0
}

/// The sum of the first `width` counters of `target`.
pub open spec fn total_upto(target: Seq<usize>, width: int) -> nat
    decreases width,
{
    if width <= 0 {
        0
    } else {
        total_upto(target, width - 1) + target[width - 1] as nat
    }
}

/// The sum of all counters of `target`.
pub open spec fn total(target: Seq<usize>) -> nat {
    total_upto(target, target.len() as int)
}

/// A budget, where there is one, is no smaller than any counter of
/// `target`. Every number of presses that reaches `target` is such a budget,
/// so a budget that is not cannot be kept by any solution.
pub open spec fn covers(max_presses: Option<usize>, target: Seq<usize>) -> bool {
    max_presses matches Some(budget) ==> forall|k: int|
        0 <= k < target.len() ==> #[trigger] target[k] <= budget
}

/// The smaller of two optional bounds, where `None` is no bound at all.
pub open spec fn spec_min_sol(a: Option<usize>, b: Option<usize>) -> Option<usize> {
    match (a, b) {
        (Some(va), Some(vb)) => Some(if va <= vb { va } else { vb }),
        (Some(_), None) => a,
        (None, Some(_)) => b,
        (None, None) => None,
    }
}

/// The smaller of two answers, where `None` (unsatisfiable) loses against
/// any number.
pub fn min_sol(a: Option<usize>, b: Option<usize>) -> (least: Option<usize>)
    ensures
        least == spec_min_sol(a, b),
{
    match (a, b) {
        (Some(va), Some(vb)) => Some(if va <= vb { va } else { vb }),
        (Some(_), None) => a,
        (None, Some(_)) => b,
        (None, None) => None,
    }
}

/// The sum of two answers; unsatisfiable as soon as one of them is.
pub fn add_sol(a: Option<usize>, b: Option<usize>) -> (sum: Option<usize>)
    requires
        a is Some && b is Some ==> a->0 + b->0 <= usize::MAX,
    ensures
        sum == match (a, b) {
            (Some(va), Some(vb)) => Some((va + vb) as usize),
            _ => None,
        },
{
    match (a, b) {
        (Some(va), Some(vb)) => Some(va + vb),
        _ => None,
    }
}

// ---------------------------------------------------------------------------
// Taking the presses of the first button out of a solution, and back in
// ---------------------------------------------------------------------------

/// How often the first button is pressed in `presses`.
pub open spec fn count_first(presses: Seq<int>) -> nat
    decreases presses.len(),
{
    if presses.len() == 0 {
        0
    } else if presses.last() == 0 {
        count_first(presses.drop_last()) + 1
    } else {
        count_first(presses.drop_last())
    }
}

/// The presses of all buttons but the first, renumbered for the button list
/// without its first button.
pub open spec fn without_first(presses: Seq<int>) -> Seq<int>
    decreases presses.len(),
{
    if presses.len() == 0 {
        Seq::empty()
    } else if presses.last() == 0 {
        without_first(presses.drop_last())
    } else {
        without_first(presses.drop_last()).push(presses.last() - 1)
    }
}

/// Presses for the button list without its first button, renumbered for the
/// whole list.
pub open spec fn shifted(sub: Seq<int>) -> Seq<int> {
    Seq::new(sub.len(), |j: int| sub[j] + 1)
}

/// The presses `sub` of the other buttons, followed by `m` presses of the
/// first button.
pub open spec fn with_first(sub: Seq<int>, m: nat) -> Seq<int>
    decreases m,
{
    if m == 0 {
        shifted(sub)
    } else {
        with_first(sub, (m - 1) as nat).push(0)
    }
}

/// With increments of zero and one, no counter shows more than the number of
/// presses made.
pub proof fn lemma_counter_bound(
    buttons: Seq<Seq<usize>>,
    presses: Seq<int>,
    width: nat,
    k: int,
)
    requires
        binary_rows(buttons, width),
        valid_presses(buttons.len(), presses),
        0 <= k < width,
    ensures
        counter_after(buttons, presses, k) <= presses.len(),
    decreases presses.len(),
{
    if presses.len() > 0 {
        lemma_counter_bound(buttons, presses.drop_last(), width, k);
        assert(0 <= presses[presses.len() - 1] < buttons.len());
    }
}

/// A counter is what the first button added to it plus what the others did.
pub proof fn lemma_split(buttons: Seq<Seq<usize>>, presses: Seq<int>, k: int)
    requires
        buttons.len() > 0,
        valid_presses(buttons.len(), presses),
    ensures
        valid_presses((buttons.len() - 1) as nat, without_first(presses)),
        without_first(presses).len() + count_first(presses) == presses.len(),
        counter_after(buttons, presses, k) == counter_after(
            buttons.skip(1),
            without_first(presses),
            k,
        ) + count_first(presses) * buttons[0][k],
    decreases presses.len(),
{
    if presses.len() > 0 {
        let front = presses.drop_last();
        let last = presses.last();
        lemma_split(buttons, front, k);
        assert(0 <= presses[presses.len() - 1] < buttons.len());
        let sub = without_first(front);
        let row = buttons[0][k] as int;
        if last == 0 {
            assert((count_first(front) + 1) * row == count_first(front) * row + row)
                by (nonlinear_arith);
        } else {
            let longer = sub.push(last - 1);
            assert(longer.drop_last() =~= sub);
            assert(longer.last() == last - 1);
            assert(buttons.skip(1)[last - 1] == buttons[last]);
            assert forall|j: int| 0 <= j < longer.len() implies 0 <= #[trigger] longer[j]
                < buttons.len() - 1 by {
                if j < sub.len() {
                    assert(longer[j] == sub[j]);
                }
            }
        }
    } else {
        assert(count_first(presses) * buttons[0][k] == 0) by (nonlinear_arith)
            requires
                count_first(presses) == 0,
        ;
    }
}

/// Renumbering presses does not change what the counters show.
pub proof fn lemma_shifted(buttons: Seq<Seq<usize>>, sub: Seq<int>, k: int)
    requires
        buttons.len() > 0,
        valid_presses((buttons.len() - 1) as nat, sub),
    ensures
        valid_presses(buttons.len(), shifted(sub)),
        shifted(sub).len() == sub.len(),
        counter_after(buttons, shifted(sub), k) == counter_after(buttons.skip(1), sub, k),
    decreases sub.len(),
{
    if sub.len() > 0 {
        let front = sub.drop_last();
        lemma_shifted(buttons, front, k);
        assert(shifted(sub).drop_last() =~= shifted(front));
        assert(0 <= sub[sub.len() - 1] < buttons.len() - 1);
        assert(buttons.skip(1)[sub.last()] == buttons[sub.last() + 1]);
    }
    assert forall|j: int| 0 <= j < shifted(sub).len() implies 0 <= #[trigger] shifted(sub)[j]
        < buttons.len() by {
        assert(0 <= sub[j] < buttons.len() - 1);
    }
}

/// Pressing the first button `m` more times adds `m` times its row.
pub proof fn lemma_join(buttons: Seq<Seq<usize>>, sub: Seq<int>, m: nat, k: int)
    requires
        buttons.len() > 0,
        valid_presses((buttons.len() - 1) as nat, sub),
    ensures
        valid_presses(buttons.len(), with_first(sub, m)),
        with_first(sub, m).len() == sub.len() + m,
        counter_after(buttons, with_first(sub, m), k) == counter_after(buttons.skip(1), sub, k) + m
            * buttons[0][k],
    decreases m,
{
    if m == 0 {
        lemma_shifted(buttons, sub, k);
        assert(m * buttons[0][k] == 0) by (nonlinear_arith)
            requires
                m == 0,
        ;
    } else {
        let shorter = with_first(sub, (m - 1) as nat);
        lemma_join(buttons, sub, (m - 1) as nat, k);
        let all = shorter.push(0);
        assert(all.drop_last() =~= shorter);
        assert(all.last() == 0);
        let row = buttons[0][k] as int;
        assert(m * row == (m - 1) * row + row) by (nonlinear_arith);
        assert forall|j: int| 0 <= j < all.len() implies 0 <= #[trigger] all[j]
            < buttons.len() by {
            if j < shorter.len() {
                assert(all[j] == shorter[j]);
            }
        }
    }
}

/// Presses that were renumbered never name the first button.
pub proof fn lemma_shifted_skips_first(sub: Seq<int>)
    requires
        forall|j: int| 0 <= j < sub.len() ==> 0 <= #[trigger] sub[j],
    ensures
        count_first(shifted(sub)) == 0,
    decreases sub.len(),
{
    if sub.len() > 0 {
        let front = sub.drop_last();
        assert forall|j: int| 0 <= j < front.len() implies 0 <= #[trigger] front[j] by {
            assert(front[j] == sub[j]);
        }
        lemma_shifted_skips_first(front);
        assert(shifted(sub).drop_last() =~= shifted(front));
        assert(0 <= sub[sub.len() - 1]);
    }
}

/// A solution for the other buttons and the residual target, followed by `m`
/// presses of the first button, is a solution for the whole.
pub proof fn lemma_extend(
    buttons: Seq<Seq<usize>>,
    target: Seq<usize>,
    residual: Seq<usize>,
    m: nat,
    sub: Seq<int>,
)
    requires
        buttons.len() > 0,
        residual.len() == target.len(),
        forall|k: int| 0 <= k < target.len() ==> residual[k] + m * buttons[0][k] == target[k],
        reaches(buttons.skip(1), sub, residual),
    ensures
        reaches(buttons, with_first(sub, m), target),
        with_first(sub, m).len() == sub.len() + m,
{
    lemma_join(buttons, sub, m, 0);
    assert forall|k: int| 0 <= k < target.len() implies #[trigger] counter_after(
        buttons,
        with_first(sub, m),
        k,
    ) == target[k] by {
        lemma_join(buttons, sub, m, k);
        assert(counter_after(buttons.skip(1), sub, k) == residual[k]);
    }
}

/// A solution without its presses of the first button is a solution for the
/// other buttons and the residual target.
pub proof fn lemma_restrict(
    buttons: Seq<Seq<usize>>,
    target: Seq<usize>,
    residual: Seq<usize>,
    presses: Seq<int>,
)
    requires
        buttons.len() > 0,
        residual.len() == target.len(),
        forall|k: int|
            0 <= k < target.len() ==> residual[k] + count_first(presses) * buttons[0][k]
                == target[k],
        reaches(buttons, presses, target),
    ensures
        reaches(buttons.skip(1), without_first(presses), residual),
        without_first(presses).len() + count_first(presses) == presses.len(),
{
    lemma_split(buttons, presses, 0);
    assert forall|k: int| 0 <= k < residual.len() implies #[trigger] counter_after(
        buttons.skip(1),
        without_first(presses),
        k,
    ) == residual[k] by {
        lemma_split(buttons, presses, k);
        assert(counter_after(buttons, presses, k) == target[k]);
    }
}

// ---------------------------------------------------------------------------
// A shortest solution is no longer than the sum of the counters
// ---------------------------------------------------------------------------

/// The row adds to at least one of the first `width` counters.
pub open spec fn touches(row: Seq<usize>, width: int) -> bool {
    exists|k: int| 0 <= k < width && #[trigger] row[k] > 0
}

/// The sum of what the first `width` counters show after `presses`.
pub open spec fn counters_total(buttons: Seq<Seq<usize>>, presses: Seq<int>, width: int) -> nat
    decreases width,
{
    if width <= 0 {
        0
    } else {
        counters_total(buttons, presses, width - 1) + counter_after(buttons, presses, width - 1)
    }
}

/// The last press adds the sum of its row to the sum of the counters.
pub proof fn lemma_counters_total_step(buttons: Seq<Seq<usize>>, presses: Seq<int>, width: int)
    requires
        presses.len() > 0,
    ensures
        counters_total(buttons, presses, width) == counters_total(
            buttons,
            presses.drop_last(),
            width,
        ) + total_upto(buttons[presses.last()], width),
    decreases width,
{
    if width > 0 {
        lemma_counters_total_step(buttons, presses, width - 1);
    }
}

/// A row that touches a counter sums to at least one.
pub proof fn lemma_total_positive(row: Seq<usize>, width: int)
    requires
        touches(row, width),
    ensures
        total_upto(row, width) >= 1,
    decreases width,
{
    if width > 0 {
        if row[width - 1] == 0 {
            let k = choose|k: int| 0 <= k < width && #[trigger] row[k] > 0;
            assert(touches(row, width - 1));
            lemma_total_positive(row, width - 1);
        }
    }
}

/// Once the target is reached the counters sum to the sum of the target.
pub proof fn lemma_reached_total(
    buttons: Seq<Seq<usize>>,
    presses: Seq<int>,
    target: Seq<usize>,
    width: int,
)
    requires
        reaches(buttons, presses, target),
        width <= target.len(),
    ensures
        counters_total(buttons, presses, width) == total_upto(target, width),
    decreases width,
{
    if width > 0 {
        lemma_reached_total(buttons, presses, target, width - 1);
        assert(counter_after(buttons, presses, width - 1) == target[width - 1]);
    }
}

/// Leaving out the presses of buttons that touch no counter gives presses
/// with the same effect, of which there are no more than the counters sum to.
pub proof fn lemma_prune(buttons: Seq<Seq<usize>>, presses: Seq<int>, width: int) -> (pruned: Seq<
    int,
>)
    requires
        valid_presses(buttons.len(), presses),
    ensures
        valid_presses(buttons.len(), pruned),
        pruned.len() <= presses.len(),
        pruned.len() <= counters_total(buttons, presses, width),
        forall|k: int|
            0 <= k < width ==> counter_after(buttons, pruned, k) == counter_after(
                buttons,
                presses,
                k,
            ),
    decreases presses.len(),
{
    if presses.len() == 0 {
        presses
    } else {
        let front = presses.drop_last();
        let last = presses.last();
        assert(0 <= presses[presses.len() - 1] < buttons.len());
        let kept = lemma_prune(buttons, front, width);
        lemma_counters_total_step(buttons, presses, width);
        if touches(buttons[last], width) {
            lemma_total_positive(buttons[last], width);
            let longer = kept.push(last);
            assert(longer.drop_last() =~= kept);
            assert(longer.last() == last);
            assert forall|j: int| 0 <= j < longer.len() implies 0 <= #[trigger] longer[j]
                < buttons.len() by {
                if j < kept.len() {
                    assert(longer[j] == kept[j]);
                }
            }
            assert forall|k: int| 0 <= k < width implies counter_after(buttons, longer, k)
                == counter_after(buttons, presses, k) by {
                assert(counter_after(buttons, kept, k) == counter_after(buttons, front, k));
            }
            longer
        } else {
            assert forall|k: int| 0 <= k < width implies counter_after(buttons, kept, k)
                == counter_after(buttons, presses, k) by {
                assert(counter_after(buttons, kept, k) == counter_after(buttons, front, k));
                assert(!(buttons[last][k] > 0));
            }
            kept
        }
    }
}

/// A shortest solution makes no more presses than the counters of the target
/// sum to.
pub proof fn lemma_min_le_total(buttons: Seq<Seq<usize>>, target: Seq<usize>, n: usize)
    requires
        is_min_presses(buttons, target, Some(n)),
    ensures
        n <= total(target),
{
    let presses = choose|presses: Seq<int>| #[trigger]
        reaches(buttons, presses, target) && presses.len() == n;
    let pruned = lemma_prune(buttons, presses, target.len() as int);
    lemma_reached_total(buttons, presses, target, target.len() as int);
    assert(reaches(buttons, pruned, target));
}

/// Subtracting `m` times a row from a target lowers its sum by `m` times the
/// sum of the row.
pub proof fn lemma_total_residual(
    target: Seq<usize>,
    residual: Seq<usize>,
    row: Seq<usize>,
    m: nat,
    width: int,
)
    requires
        forall|k: int| 0 <= k < width ==> residual[k] + m * row[k] == target[k],
    ensures
        total_upto(target, width) == total_upto(residual, width) + m * total_upto(row, width),
    decreases width,
{
    if width > 0 {
        lemma_total_residual(target, residual, row, m, width - 1);
        let below = total_upto(row, width - 1) as int;
        let here = row[width - 1] as int;
        assert(m * (below + here) == m * below + m * here) by (nonlinear_arith);
    } else {
        assert(m * total_upto(row, width) == 0) by (nonlinear_arith)
            requires
                total_upto(row, width) == 0,
        ;
    }
}

// ---------------------------------------------------------------------------
// How often the first button can be pressed
// ---------------------------------------------------------------------------

/// The most presses of a button that counter `k` allows: none if the button
/// would overshoot it at once, the counter itself if the button adds to it, and
/// no bound if the button leaves it alone.
pub open spec fn bound_at(row: Seq<usize>, target: Seq<usize>, k: int) -> Option<usize> {
    if row[k] > target[k] {
        Some(0)
    } else if row[k] > 0 {
        Some(target[k])
    } else {
        None
    }
}

/// The least of the bounds that the first `width` counters put on the presses
/// of a button.
pub open spec fn counter_limit(row: Seq<usize>, target: Seq<usize>, width: int) -> Option<usize>
    decreases width,
{
    if width <= 0 {
        None
    } else {
        spec_min_sol(counter_limit(row, target, width - 1), bound_at(row, target, width - 1))
    }
}

/// The largest multiplicity of a button that is tried: the least bound that
/// a counter puts on it, capped by the budget. A button that touches no counter
/// is bounded by no counter; it is never worth pressing, and its limit is zero.
pub open spec fn spec_press_limit(
    row: Seq<usize>,
    target: Seq<usize>,
    max_presses: Option<usize>,
) -> usize {
    match counter_limit(row, target, target.len() as int) {
        Some(limit) => match max_presses {
            Some(budget) => if limit <= budget {
                limit
            } else {
                budget
            },
            None => limit,
        },
        None => 0,
    }
}

/// The least bound is the bound of some counter that the button touches, and
/// there is none exactly when the button touches no counter.
pub proof fn lemma_counter_limit(row: Seq<usize>, target: Seq<usize>, width: int)
    ensures
        counter_limit(row, target, width) is None <==> !touches(row, width),
        counter_limit(row, target, width) matches Some(limit) ==> {
            &&& exists|k: int|
                0 <= k < width && row[k] > 0 && #[trigger] bound_at(row, target, k) == Some(limit)
            &&& forall|k: int|
                0 <= k < width && row[k] > 0 ==> limit <= (#[trigger] bound_at(row, target, k))->0
        },
    decreases width,
{
    if width > 0 {
        lemma_counter_limit(row, target, width - 1);
        let below = counter_limit(row, target, width - 1);
        let here = bound_at(row, target, width - 1);
        if row[width - 1] > 0 {
            assert(touches(row, width));
        } else if touches(row, width - 1) {
            let k = choose|k: int| 0 <= k < width - 1 && #[trigger] row[k] > 0;
            assert(0 <= k < width && row[k] > 0);
        } else {
            assert forall|k: int| 0 <= k < width implies !(#[trigger] row[k] > 0) by {
                if k < width - 1 {
                    assert(!(0 <= k < width - 1 && row[k] > 0));
                }
            }
        }
        if counter_limit(row, target, width) is Some {
            let limit = counter_limit(row, target, width)->0;
            if below is Some {
                let lower = below->0;
                let k = choose|k: int|
                    0 <= k < width - 1 && row[k] > 0 && #[trigger] bound_at(row, target, k) == Some(
                        lower,
                    );
                if here is Some && here->0 < lower {
                    assert(bound_at(row, target, width - 1) == Some(limit));
                } else {
                    assert(bound_at(row, target, k) == Some(limit));
                }
            } else {
                assert(bound_at(row, target, width - 1) == Some(limit));
            }
        }
    }
}

/// Up to the limit, the presses of a button never overshoot a counter.
pub proof fn lemma_limit_fits(
    row: Seq<usize>,
    target: Seq<usize>,
    max_presses: Option<usize>,
    m: nat,
    k: int,
)
    requires
        0 <= k < target.len(),
        row[k] <= 1,
        m <= spec_press_limit(row, target, max_presses),
    ensures
        m * row[k] <= target[k],
        m * row[k] <= m,
{
    lemma_counter_limit(row, target, target.len() as int);
    if row[k] == 0 {
        assert(m * row[k] == 0) by (nonlinear_arith)
            requires
                row[k] == 0,
        ;
    } else {
        assert(m * row[k] == m) by (nonlinear_arith)
            requires
                row[k] == 1,
        ;
        assert(touches(row, target.len() as int));
        let limit = counter_limit(row, target, target.len() as int)->0;
        assert(limit <= bound_at(row, target, k)->0);
    }
}

/// The limit that the counters and the budget put on the presses of a button.
pub fn press_limit(row: &Vec<usize>, target: &[usize], max_presses: Option<usize>) -> (limit: usize)
    requires
        row@.len() >= target@.len(),
    ensures
        limit == spec_press_limit(row@, target@, max_presses),
{
    let mut least: Option<usize> = None;
    let mut k: usize = 0;
    while k < target.len()
        invariant
            k <= target@.len() <= row@.len(),
            least == counter_limit(row@, target@, k as int),
        decreases target@.len() - k,
    {
        let here = if row[k] > target[k] {
            Some(0)
        } else if row[k] > 0 {
            Some(target[k])
        } else {
            None
        };
        least = min_sol(least, here);
        k += 1;
    }
    match least {
        Some(limit) => match min_sol(Some(limit), max_presses) {
            Some(capped) => capped,
            None => limit,
        },
        None => 0,
    }
}

/// Whether every counter of `target` is zero.
pub fn is_all_zero(target: &[usize]) -> (zero: bool)
    ensures
        zero == all_zero(target@),
{
    let mut k: usize = 0;
    while k < target.len()
        invariant
            k <= target@.len(),
            forall|j: int| 0 <= j < k ==> #[trigger] target@[j] == 0,
        decreases target@.len() - k,
    {
        if target[k] != 0 {
            return false;
        }
        k += 1;
    }
    true
}

/// Writes into `residual` what is left of `target` after `m` presses of the
/// button with increments `row`.
pub fn fill_residual(residual: &mut Vec<usize>, target: &[usize], row: &Vec<usize>, m: usize)
    requires
        row@.len() >= target@.len(),
        forall|k: int| 0 <= k < target@.len() ==> m * (#[trigger] row@[k]) <= target@[k],
        forall|k: int| 0 <= k < target@.len() ==> m * (#[trigger] row@[k]) <= m,
    ensures
        final(residual)@.len() == target@.len(),
        forall|k: int|
            0 <= k < target@.len() ==> (#[trigger] final(residual)@[k]) + m * row@[k]
                == target@[k],
{
    residual.clear();
    let mut k: usize = 0;
    while k < target.len()
        invariant
            k <= target@.len() <= row@.len(),
            residual@.len() == k,
            forall|j: int| 0 <= j < target@.len() ==> m * (#[trigger] row@[j]) <= target@[j],
            forall|j: int| 0 <= j < target@.len() ==> m * (#[trigger] row@[j]) <= m,
            forall|j: int| 0 <= j < k ==> (#[trigger] residual@[j]) + m * row@[j] == target@[j],
        decreases target@.len() - k,
    {
        assert(m * row@[k as int] <= target@[k as int]);
        assert(m * row@[k as int] <= m);
        let step: usize = m * row[k];
        residual.push(target[k] - step);
        k += 1;
    }
}

/// Every solution can be traded for one that is no longer and presses the
/// first button no more often than its limit allows.
pub proof fn lemma_limit_complete(
    buttons: Seq<Seq<usize>>,
    target: Seq<usize>,
    max_presses: Option<usize>,
    presses: Seq<int>,
) -> (normal: Seq<int>)
    requires
        buttons.len() > 0,
        binary_rows(buttons, target.len()),
        covers(max_presses, target),
        reaches(buttons, presses, target),
    ensures
        reaches(buttons, normal, target),
        normal.len() <= presses.len(),
        count_first(normal) <= spec_press_limit(buttons[0], target, max_presses),
{
    let row = buttons[0];
    let width = target.len() as int;
    lemma_counter_limit(row, target, width);
    if touches(row, width) {
        let limit = counter_limit(row, target, width)->0;
        let k = choose|k: int|
            0 <= k < width && row[k] > 0 && #[trigger] bound_at(row, target, k) == Some(limit);
        let c = count_first(presses);
        lemma_split(buttons, presses, k);
        assert(counter_after(buttons, presses, k) == target[k]);
        assert(row[k] == 1);
        assert(c * row[k] == c) by (nonlinear_arith)
            requires
                row[k] == 1,
        ;
        if max_presses is Some {
            assert(target[k] <= max_presses->0);
        }
        presses
    } else {
        let sub = without_first(presses);
        assert forall|k: int| 0 <= k < target.len() implies target[k] + count_first(presses)
            * buttons[0][k] == target[k] by {
            assert(!(row[k] > 0));
            assert(count_first(presses) * row[k] == 0) by (nonlinear_arith)
                requires
                    row[k] == 0,
            ;
        }
        lemma_restrict(buttons, target, target, presses);
        assert forall|k: int| 0 <= k < target.len() implies target[k] + 0 * buttons[0][k]
            == target[k] by {
            assert(0 * buttons[0][k] == 0) by (nonlinear_arith);
        }
        lemma_extend(buttons, target, target, 0, sub);
        lemma_shifted_skips_first(sub);
        with_first(sub, 0)
    }
}

// ---------------------------------------------------------------------------
// The search
// ---------------------------------------------------------------------------

/// The last `n` buttons.
pub open spec fn tail(buttons: Seq<Seq<usize>>, n: int) -> Seq<Seq<usize>> {
    buttons.skip(buttons.len() - n)
}

/// The entry holds the true answer to its subgoal: the fewest presses of the
/// last buttons, as many as the entry says remain, that reach its target.
pub open spec fn answers(buttons: Seq<Seq<usize>>, entry: Entry) -> bool {
    &&& entry.0.0 <= buttons.len()
    &&& is_min_presses(tail(buttons, entry.0.0 as int), entry.0.1, entry.1)
}

/// Every entry that speaks of no more buttons than there are holds the true
/// answer to its subgoal.
pub open spec fn sound_for(order: Seq<Entry>, buttons: Seq<Seq<usize>>) -> bool {
    forall|i: int|
        0 <= i < order.len() && (#[trigger] order[i]).0.0 <= buttons.len() ==> answers(
            buttons,
            order[i],
        )
}

/// Every entry was there before or holds the true answer to its subgoal.
pub open spec fn grown_from(order: Seq<Entry>, before: Seq<Entry>, buttons: Seq<Seq<usize>>) -> bool {
    forall|j: int|
        0 <= j < order.len() ==> before.contains(#[trigger] order[j]) || answers(buttons, order[j])
}

/// A subgoal on the last buttons is the same subgoal whether or not a button
/// stands in front of them.
pub proof fn lemma_answers_rest(buttons: Seq<Seq<usize>>, entry: Entry)
    requires
        buttons.len() > 0,
        entry.0.0 <= buttons.len() - 1,
    ensures
        answers(buttons.skip(1), entry) <==> answers(buttons, entry),
{
    assert(tail(buttons.skip(1), entry.0.0 as int) =~= tail(buttons, entry.0.0 as int));
}

/// Tests whether a budget is no smaller than any counter of `target`.
pub fn within_budget(target: &[usize], max_presses: Option<usize>) -> (fine: bool)
    ensures
        fine == covers(max_presses, target@),
{
    match max_presses {
        None => true,
        Some(budget) => {
            let mut k: usize = 0;
            while k < target.len()
                invariant
                    k <= target@.len(),
                    max_presses == Some(budget),
                    forall|j: int| 0 <= j < k ==> #[trigger] target@[j] <= budget,
                decreases target@.len() - k,
            {
                if target[k] > budget {
                    assert(!(target@[k as int] <= budget));
                    return false;
                }
                k += 1;
            }
            true
        },
    }
}

/// The fewest presses of `buttons` that reach `target`, or `None` when the
/// target cannot be reached.
///
/// Subgoals are looked up in `cache` under the number of buttons and the
/// target, and stored there once solved, so that the subgoal asked for is the
/// most recently used entry afterwards. Whatever the cache holds or has
/// forgotten, the answer is the same. The budget only ever caps how often a
/// single button is tried; it is not part of the key. A budget below one of
/// the counters is below every solution and is set aside, so that no budget
/// changes the answer.
pub fn subsolve(
    buttons: &[Vec<usize>],
    target: &[usize],
    max_presses: Option<usize>,
    cache: &mut SolutionCache,
) -> (answer: Option<usize>)
    requires
        old(cache).wf(),
        binary_rows(rows(buttons@), target@.len()),
        total(target@) <= usize::MAX,
        sound_for(old(cache).recency(), rows(buttons@)),
    ensures
        is_min_presses(rows(buttons@), target@, answer),
        all_zero(target@) ==> answer == Some(0usize),
        buttons@.len() == 0 && !all_zero(target@) ==> answer is None,
        final(cache).wf(),
        final(cache).capacity() == old(cache).capacity(),
        sound_for(final(cache).recency(), rows(buttons@)),
        grown_from(final(cache).recency(), old(cache).recency(), rows(buttons@)),
        final(cache).recency().len() > 0,
        final(cache).recency()[0] == ((buttons@.len() as usize, target@), answer),
    decreases buttons@.len(),
{
    let n_buttons = buttons.len();
    let n_counters = target.len();
    let ghost all = rows(buttons@);
    let ghost before = cache.recency();
    proof {
        assert(tail(all, n_buttons as int) =~= all);
        if all_zero(target@) {
            assert(reaches(all, Seq::<int>::empty(), target@));
        }
    }

    let max_presses = if within_budget(target, max_presses) {
        max_presses
    } else {
        None
    };
    let key = (n_buttons, slice_to_vec(target));
    if let Some(known) = cache.get(&key) {
        proof {
            let at = crate::cache::key_index(before, key@);
            assert(before[at] == (key@, known));
            assert(answers(all, before[at]));
            assert forall|i: int|
                0 <= i < cache.recency().len() && (#[trigger] cache.recency()[i]).0.0
                    <= all.len() implies answers(all, cache.recency()[i]) by {
                assert(before.contains(cache.recency()[i]));
            }
            lemma_empty_reaches_nothing(all, target@);
        }
        return known;
    }
    let answer = if is_all_zero(target) {
        Some(0)
    } else if n_buttons == 0 {
        proof {
            lemma_empty_reaches_nothing(all, target@);
        }
        None
    } else {
        let row = &buttons[0];
        let rest = slice_subrange(buttons, 1, n_buttons);
        let ghost others = rows(rest@);
        proof {
            assert(others =~= all.skip(1));
            assert(all[0] == row@);
            assert(all[0].len() >= target@.len());
        }
        let limit = press_limit(row, target, max_presses);
        let mut residual: Vec<usize> = Vec::new();
        let mut sub_best: Option<usize> = None;
        let mut m: usize = limit;
        let mut pending = true;
        while pending
            invariant
                m <= limit,
                limit == spec_press_limit(row@, target@, max_presses),
                n_buttons == buttons@.len(),
                n_buttons > 0,
                all == rows(buttons@),
                all[0] == row@,
                others == rows(rest@),
                others == all.skip(1),
                rest@.len() == buttons@.len() - 1,
                binary_rows(all, target@.len()),
                total(target@) <= usize::MAX,
                covers(max_presses, target@),
                cache.wf(),
                cache.capacity() == old(cache).capacity(),
                sound_for(cache.recency(), all),
                grown_from(cache.recency(), before, all),
                sub_best matches Some(best) ==> exists|presses: Seq<int>| #[trigger]
                    reaches(all, presses, target@) && presses.len() == best,
                forall|presses: Seq<int>| #[trigger]
                    reaches(all, presses, target@) && count_first(presses) <= limit && (
                    count_first(presses) > m || !pending) ==> sub_best is Some && sub_best->0
                        <= presses.len(),
            decreases
                    if pending {
                        m + 1
                    } else {
                        0
                    },
        {
            let ghost stored = cache.recency();
            let ghost best_before = sub_best;
            proof {
                assert forall|k: int| 0 <= k < target@.len() implies m * (#[trigger] row@[k])
                    <= target@[k] && m * row@[k] <= m by {
                    assert(all[0][k] <= 1);
                    lemma_limit_fits(row@, target@, max_presses, m as nat, k);
                }
            }
            fill_residual(&mut residual, target, row, m);
            let budget = min_sol(max_presses, sub_best);
            proof {
                lemma_total_residual(target@, residual@, row@, m as nat, target@.len() as int);
                assert(binary_rows(others, residual@.len())) by {
                    assert forall|i: int| 0 <= i < others.len() implies (#[trigger] others[i]).len()
                        >= residual@.len() by {
                        assert(others[i] == all[i + 1]);
                    }
                    assert forall|i: int, k: int|
                        0 <= i < others.len() && 0 <= k < residual@.len() implies #[trigger] others[i][k]
                        <= 1 by {
                        assert(others[i][k] == all[i + 1][k]);
                    }
                }
                assert(sound_for(stored, others)) by {
                    assert forall|i: int|
                        0 <= i < stored.len() && (#[trigger] stored[i]).0.0
                            <= others.len() implies answers(others, stored[i]) by {
                        lemma_answers_rest(all, stored[i]);
                    }
                }
            }
            let sub_answer = subsolve(rest, residual.as_slice(), budget, cache);
            proof {
                assert(grown_from(cache.recency(), before, all) && sound_for(cache.recency(), all))
                    by {
                    assert forall|j: int| 0 <= j < cache.recency().len() implies (before.contains(
                        #[trigger] cache.recency()[j],
                    ) || answers(all, cache.recency()[j])) && (cache.recency()[j].0.0 <= all.len()
                        ==> answers(all, cache.recency()[j])) by {
                        let entry = cache.recency()[j];
                        if stored.contains(entry) {
                            let i = choose|i: int| 0 <= i < stored.len() && stored[i] == entry;
                            assert(before.contains(stored[i]) || answers(all, stored[i]));
                        } else {
                            assert(answers(others, entry));
                            lemma_answers_rest(all, entry);
                        }
                    }
                }
                if sub_answer is Some {
                    lemma_min_le_total(others, residual@, sub_answer->0);
                    if m > 0 {
                        lemma_counter_limit(row@, target@, target@.len() as int);
                        lemma_total_positive(row@, target@.len() as int);
                        assert(m * total_upto(row@, target@.len() as int) >= m)
                            by (nonlinear_arith)
                            requires
                                total_upto(row@, target@.len() as int) >= 1,
                        ;
                    }
                }
            }
            sub_best = min_sol(sub_best, add_sol(Some(m), sub_answer));
            proof {
                if sub_answer is Some {
                    let sub = choose|sub: Seq<int>| #[trigger]
                        reaches(others, sub, residual@) && sub.len() == sub_answer->0;
                    lemma_extend(all, target@, residual@, m as nat, sub);
                }
                assert forall|presses: Seq<int>| #[trigger]
                    reaches(all, presses, target@) && count_first(presses) <= limit
                        && count_first(presses) >= m implies sub_best is Some && sub_best->0
                    <= presses.len() by {
                    if count_first(presses) == m {
                        lemma_restrict(all, target@, residual@, presses);
                        assert(reaches(others, without_first(presses), residual@));
                    } else {
                        assert(best_before is Some && best_before->0 <= presses.len());
                    }
                }
            }
            if m == 0 {
                pending = false;
            } else {
                m = m - 1;
            }
        }
        proof {
            assert forall|presses: Seq<int>| #[trigger]
                reaches(all, presses, target@) implies sub_best is Some && sub_best->0
                <= presses.len() by {
                let normal = lemma_limit_complete(all, target@, max_presses, presses);
                assert(reaches(all, normal, target@));
            }
        }
        sub_best
    };
    let ghost stored = cache.recency();
    cache.put(key, answer);
    proof {
        assert(grown_from(cache.recency(), before, all) && sound_for(cache.recency(), all)) by {
            assert forall|j: int| 0 <= j < cache.recency().len() implies (before.contains(
                #[trigger] cache.recency()[j],
            ) || answers(all, cache.recency()[j])) && (cache.recency()[j].0.0 <= all.len()
                ==> answers(all, cache.recency()[j])) by {
                let entry = cache.recency()[j];
                if j > 0 {
                    let i = choose|i: int| 0 <= i < stored.len() && stored[i] == entry;
                    assert(before.contains(stored[i]) || answers(all, stored[i]));
                }
            }
        }
    }
    answer
}

/// Without buttons only the target of all zeros is reached.
pub proof fn lemma_empty_reaches_nothing(buttons: Seq<Seq<usize>>, target: Seq<usize>)
    ensures
        buttons.len() == 0 && !all_zero(target) ==> forall|presses: Seq<int>|
            !#[trigger] reaches(buttons, presses, target),
{
    if buttons.len() == 0 && !all_zero(target) {
        assert forall|presses: Seq<int>| !#[trigger] reaches(buttons, presses, target) by {
            if reaches(buttons, presses, target) {
                if presses.len() > 0 {
                    assert(0 <= presses[0] < buttons.len());
                }
                let k = choose|k: int| 0 <= k < target.len() && target[k] != 0;
                assert(counter_after(buttons, presses, k) == target[k]);
            }
        }
    }
}

// ---------------------------------------------------------------------------
// One machine
// ---------------------------------------------------------------------------

/// The number of subgoals that the search for one machine remembers unless
/// told otherwise.
pub const DEFAULT_CAPACITY: usize = 10_000_000;

/// The row of increments of the button with mask `mask`: one for every
/// position whose bit is set, zero for the others.
pub open spec fn mask_row(mask: usize, width: nat) -> Seq<usize> {
    Seq::new(width, |k: int| (mask >> (k as usize)) & 1)
}

/// The rows of increments of the buttons with masks `masks`.
pub open spec fn mask_rows(masks: Seq<usize>, width: nat) -> Seq<Seq<usize>> {
    Seq::new(masks.len(), |i: int| mask_row(masks[i], width))
}

/// By how much a button raises the counters altogether, as far as a `usize`
/// can tell.
pub open spec fn spec_weight(row: Seq<usize>) -> usize {
    if total(row) <= usize::MAX {
        total(row) as usize
    } else {
        usize::MAX
    }
}

/// The sum of the first counters is no more than the sum of all.
pub proof fn lemma_total_monotone(target: Seq<usize>, fewer: int, more: int)
    requires
        fewer <= more,
    ensures
        total_upto(target, fewer) <= total_upto(target, more),
    decreases more - fewer,
{
    if fewer < more {
        lemma_total_monotone(target, fewer, more - 1);
    }
}

/// The row of increments of the button with mask `mask`.
pub fn button_row(mask: usize, width: usize) -> (row: Vec<usize>)
    requires
        width <= usize::BITS,
    ensures
        row@ == mask_row(mask, width as nat),
        forall|k: int| 0 <= k < width ==> #[trigger] row@[k] <= 1,
{
    let mut row: Vec<usize> = Vec::new();
    let mut k: usize = 0;
    while k < width
        invariant
            k <= width <= usize::BITS,
            row@.len() == k,
            forall|j: int| 0 <= j < k ==> #[trigger] row@[j] == (mask >> (j as usize)) & 1,
            forall|j: int| 0 <= j < k ==> #[trigger] row@[j] <= 1,
        decreases width - k,
    {
        let bit = (mask >> k) & 1;
        assert(((mask >> k) & 1) <= 1) by (bit_vector);
        row.push(bit);
        k += 1;
    }
    assert(row@ =~= mask_row(mask, width as nat));
    row
}

/// The sum of the counters, or `None` if it does not fit a `usize`.
pub fn checked_total(target: &[usize]) -> (sum: Option<usize>)
    ensures
        sum matches Some(fits) ==> fits == total(target@),
        sum is None ==> total(target@) > usize::MAX,
{
    let mut sum: usize = 0;
    let mut k: usize = 0;
    while k < target.len()
        invariant
            k <= target@.len(),
            sum == total_upto(target@, k as int),
        decreases target@.len() - k,
    {
        match sum.checked_add(target[k]) {
            Some(more) => {
                sum = more;
            },
            None => {
                proof {
                    lemma_total_monotone(target@, k + 1, target@.len() as int);
                }
                return None;
            },
        }
        k += 1;
    }
    Some(sum)
}

/// By how much a button raises the counters altogether; a sum too large for
/// a `usize` counts as the largest `usize`.
pub fn weight(row: &[usize]) -> (sum: usize)
    ensures
        sum == spec_weight(row@),
{
    match checked_total(row) {
        Some(sum) => sum,
        None => usize::MAX,
    }
}

/// Orders the buttons by falling weight, so that the buttons that move the
/// most counters are tried first. Buttons of equal weight keep their order.
pub fn sort_by_weight(buttons: &mut Vec<Vec<usize>>)
    ensures
        final(buttons)@.to_multiset() == old(buttons)@.to_multiset(),
        forall|i: int, j: int|
            0 <= i < j < final(buttons)@.len() ==> spec_weight(final(buttons)@[i]@) >= spec_weight(
                final(buttons)@[j]@,
            ),
{
    let mut done: usize = 0;
    while done < buttons.len()
        invariant
            done <= buttons@.len(),
            buttons@.to_multiset() == old(buttons)@.to_multiset(),
            forall|i: int, j: int|
                0 <= i < j < done ==> spec_weight(buttons@[i]@) >= spec_weight(buttons@[j]@),
        decreases buttons@.len() - done,
    {
        let heavy = weight(buttons[done].as_slice());
        let mut at: usize = 0;
        let mut searching = true;
        while searching
            invariant
                at <= done < buttons@.len(),
                heavy == spec_weight(buttons@[done as int]@),
                forall|i: int| 0 <= i < at ==> spec_weight(buttons@[i]@) >= heavy,
                !searching ==> at == done || spec_weight(buttons@[at as int]@) < heavy,
            decreases
                    if searching {
                        done - at + 1
                    } else {
                        0
                    },
        {
            if at == done {
                searching = false;
            } else if weight(buttons[at].as_slice()) < heavy {
                searching = false;
            } else {
                at += 1;
            }
        }
        if at < done {
            let ghost before = buttons@;
            let item = buttons.remove(done);
            let ghost between = buttons@;
            buttons.insert(at, item);
            proof {
                vstd::seq_lib::to_multiset_remove(before, done as int);
                vstd::seq_lib::to_multiset_insert(between, at as int, item);
                assert(before.contains(before[done as int]));
                vstd::seq_lib::to_multiset_contains(before, item);
                assert(before.to_multiset().remove(item).insert(item) =~= before.to_multiset());
                let after = buttons@;
                assert forall|i: int| 0 <= i <= done implies #[trigger] after[i] == (if i < at {
                    before[i]
                } else if i == at {
                    before[done as int]
                } else {
                    before[i - 1]
                }) by {
                    if i < at {
                        assert(between[i] == before[i]);
                    } else if i > at {
                        assert(between[i - 1] == before[i - 1]);
                    }
                }
                assert forall|i: int, j: int| 0 <= i < j < done + 1 implies spec_weight(after[i]@)
                    >= spec_weight(after[j]@) by {
                    assert(spec_weight(before[at as int]@) < heavy);
                    if j > at {
                        assert(spec_weight(before[at as int]@) >= spec_weight(before[j - 1]@) || j
                            - 1 == at);
                    }
                }
            }
        }
        done += 1;
    }
}

/// The fewest button presses after which every counter of `machine` shows
/// its joltage, or `None` when no presses get there.
pub fn solve_joltage(machine: &Machine) -> (answer: Option<usize>)
    requires
        machine.joltage@.len() <= usize::BITS,
        total(machine.joltage@) <= usize::MAX,
    ensures
        is_min_presses(
            mask_rows(machine.buttons@, machine.joltage@.len()),
            machine.joltage@,
            answer,
        ),
        all_zero(machine.joltage@) ==> answer == Some(0usize),
        machine.buttons@.len() == 0 && !all_zero(machine.joltage@) ==> answer is None,
{
    solve_joltage_bounded(machine, DEFAULT_CAPACITY)
}

/// The same as [`solve_joltage`], with a memo table of `capacity` entries.
/// The answer does not depend on `capacity`: a smaller table forgets more and
/// has more to compute again, that is all.
pub fn solve_joltage_bounded(machine: &Machine, capacity: usize) -> (answer: Option<usize>)
    requires
        0 < capacity <= crate::cache::CAPACITY_LIMIT,
        machine.joltage@.len() <= usize::BITS,
        total(machine.joltage@) <= usize::MAX,
    ensures
        is_min_presses(
            mask_rows(machine.buttons@, machine.joltage@.len()),
            machine.joltage@,
            answer,
        ),
        all_zero(machine.joltage@) ==> answer == Some(0usize),
        machine.buttons@.len() == 0 && !all_zero(machine.joltage@) ==> answer is None,
{
    let mut cache = SolutionCache::new(capacity);
    let n_counters = machine.joltage.len();
    let ghost masks = mask_rows(machine.buttons@, n_counters as nat);
    let mut buttons_joltage: Vec<Vec<usize>> = Vec::new();
    let mut i: usize = 0;
    while i < machine.buttons.len()
        invariant
            i <= machine.buttons@.len(),
            n_counters == machine.joltage@.len(),
            n_counters <= usize::BITS,
            buttons_joltage@.len() == i,
            forall|j: int|
                0 <= j < i ==> (#[trigger] buttons_joltage@[j])@ == mask_row(
                    machine.buttons@[j],
                    n_counters as nat,
                ),
        decreases machine.buttons@.len() - i,
    {
        buttons_joltage.push(button_row(machine.buttons[i], n_counters));
        i += 1;
    }
    let ghost unsorted = buttons_joltage@;
    assert(rows(unsorted) =~= masks);
    sort_by_weight(&mut buttons_joltage);
    let budget = checked_total(machine.joltage.as_slice());
    proof {
        let sorted = rows(buttons_joltage@);
        assert forall|i: int| 0 <= i < sorted.len() implies masks.contains(#[trigger] sorted[i]) by {
            assert(buttons_joltage@.contains(buttons_joltage@[i]));
            vstd::seq_lib::to_multiset_contains(buttons_joltage@, buttons_joltage@[i]);
            vstd::seq_lib::to_multiset_contains(unsorted, buttons_joltage@[i]);
            let j = choose|j: int| 0 <= j < unsorted.len() && unsorted[j] == buttons_joltage@[i];
            assert(masks[j] == sorted[i]);
        }
        assert forall|i: int| 0 <= i < masks.len() implies sorted.contains(#[trigger] masks[i]) by {
            assert(unsorted.contains(unsorted[i]));
            vstd::seq_lib::to_multiset_contains(unsorted, unsorted[i]);
            vstd::seq_lib::to_multiset_contains(buttons_joltage@, unsorted[i]);
            let j = choose|j: int|
                0 <= j < buttons_joltage@.len() && buttons_joltage@[j] == unsorted[i];
            assert(sorted[j] == masks[i]);
        }
        assert(binary_rows(sorted, n_counters as nat)) by {
            assert forall|i: int| 0 <= i < sorted.len() implies (#[trigger] sorted[i]).len()
                >= n_counters by {
                assert(masks.contains(sorted[i]));
            }
            assert forall|i: int, k: int|
                0 <= i < sorted.len() && 0 <= k < n_counters implies #[trigger] sorted[i][k]
                <= 1 by {
                assert(masks.contains(sorted[i]));
                let j = choose|j: int| 0 <= j < masks.len() && masks[j] == sorted[i];
                let mask = machine.buttons@[j];
                let shift = k as usize;
                assert(((mask >> shift) & 1) <= 1) by (bit_vector);
            }
        }
    }
    let answer = subsolve(
        buttons_joltage.as_slice(),
        machine.joltage.as_slice(),
        budget,
        &mut cache,
    );
    proof {
        lemma_same_buttons(rows(buttons_joltage@), masks, machine.joltage@, answer);
        lemma_empty_reaches_nothing(masks, machine.joltage@);
    }
    answer
}

// ---------------------------------------------------------------------------
// Laws
// ---------------------------------------------------------------------------

/// There is one answer: two numbers that both are the fewest presses are
/// equal, and a target is not both reachable and unreachable. So whatever a
/// cache holds, has forgotten or was sized to, a search that returns the fewest
/// presses returns the same.
pub proof fn lemma_answer_unique(
    buttons: Seq<Seq<usize>>,
    target: Seq<usize>,
    first: Option<usize>,
    second: Option<usize>,
)
    requires
        is_min_presses(buttons, target, first),
        is_min_presses(buttons, target, second),
    ensures
        first == second,
{
    if first is Some {
        let presses = choose|presses: Seq<int>| #[trigger]
            reaches(buttons, presses, target) && presses.len() == first->0;
        assert(reaches(buttons, presses, target));
    }
    if second is Some {
        let presses = choose|presses: Seq<int>| #[trigger]
            reaches(buttons, presses, target) && presses.len() == second->0;
        assert(reaches(buttons, presses, target));
    }
}

/// A store that forgets stays sound: where every entry holds the true answer
/// to its subgoal, so does every entry of what is left of them. So a search
/// may go on with a store that was cleared or shrunk, and returns the fewest
/// presses as before.
pub proof fn lemma_forgetting_is_sound(
    order: Seq<Entry>,
    kept: Seq<Entry>,
    buttons: Seq<Seq<usize>>,
)
    requires
        sound_for(order, buttons),
        forall|j: int| 0 <= j < kept.len() ==> order.contains(#[trigger] kept[j]),
    ensures
        sound_for(kept, buttons),
{
    assert forall|j: int| 0 <= j < kept.len() && (#[trigger] kept[j]).0.0
        <= buttons.len() implies answers(buttons, kept[j]) by {
        assert(order.contains(kept[j]));
        let i = choose|i: int| 0 <= i < order.len() && order[i] == kept[j];
        assert(answers(buttons, order[i]));
    }
}

/// The target of all zeros needs no press at all, whatever the buttons.
pub proof fn lemma_zero_target(buttons: Seq<Seq<usize>>, target: Seq<usize>)
    requires
        all_zero(target),
    ensures
        is_min_presses(buttons, target, Some(0usize)),
{
    assert(reaches(buttons, Seq::<int>::empty(), target));
}

/// Without buttons a target that is not all zeros cannot be reached.
pub proof fn lemma_no_buttons(target: Seq<usize>)
    requires
        !all_zero(target),
    ensures
        is_min_presses(Seq::<Seq<usize>>::empty(), target, None),
{
    lemma_empty_reaches_nothing(Seq::<Seq<usize>>::empty(), target);
}

/// With a single button that touches a counter, the target `m` times its row
/// takes exactly `m` presses.
pub proof fn lemma_single_button(row: Seq<usize>, target: Seq<usize>, m: usize)
    requires
        row.len() >= target.len(),
        forall|k: int| 0 <= k < target.len() ==> #[trigger] row[k] <= 1,
        touches(row, target.len() as int),
        forall|k: int| 0 <= k < target.len() ==> #[trigger] target[k] == m * row[k],
    ensures
        is_min_presses(seq![row], target, Some(m)),
{
    let buttons = seq![row];
    let none = Seq::<int>::empty();
    assert(binary_rows(buttons, target.len()));
    let zero = Seq::new(target.len(), |k: int| 0usize);
    assert(reaches(buttons.skip(1), none, zero));
    assert forall|k: int| 0 <= k < target.len() implies zero[k] + m * buttons[0][k]
        == target[k] by {
        assert(target[k] == m * row[k]);
    }
    lemma_extend(buttons, target, zero, m as nat, none);
    assert(reaches(buttons, with_first(none, m as nat), target));
    let hit = choose|k: int| 0 <= k < target.len() && #[trigger] row[k] > 0;
    assert(row[hit] == 1);
    assert(m * row[hit] == m) by (nonlinear_arith)
        requires
            row[hit] == 1,
    ;
    assert forall|presses: Seq<int>| #[trigger] reaches(buttons, presses, target) implies m
        <= presses.len() by {
        lemma_counter_bound(buttons, presses, target.len(), hit);
        assert(counter_after(buttons, presses, hit) == target[hit]);
    }
}

/// Presses of the buttons of one list, renamed to buttons with the same rows
/// in another list, move every counter as before.
pub proof fn lemma_relabel(from: Seq<Seq<usize>>, to: Seq<Seq<usize>>, presses: Seq<int>) -> (renamed:
    Seq<int>)
    requires
        forall|i: int| 0 <= i < from.len() ==> to.contains(#[trigger] from[i]),
        valid_presses(from.len(), presses),
    ensures
        valid_presses(to.len(), renamed),
        renamed.len() == presses.len(),
        forall|k: int| counter_after(to, renamed, k) == counter_after(from, presses, k),
    decreases presses.len(),
{
    if presses.len() == 0 {
        presses
    } else {
        let front = presses.drop_last();
        let last = presses.last();
        assert(0 <= presses[presses.len() - 1] < from.len());
        let shorter = lemma_relabel(from, to, front);
        assert(to.contains(from[last]));
        let same = choose|j: int| 0 <= j < to.len() && to[j] == from[last];
        let renamed = shorter.push(same);
        assert(renamed.drop_last() =~= shorter);
        assert(renamed.last() == same);
        assert forall|j: int| 0 <= j < renamed.len() implies 0 <= #[trigger] renamed[j]
            < to.len() by {
            if j < shorter.len() {
                assert(renamed[j] == shorter[j]);
            }
        }
        assert forall|k: int| counter_after(to, renamed, k) == counter_after(
            from,
            presses,
            k,
        ) by {
            assert(counter_after(to, shorter, k) == counter_after(from, front, k));
        }
        renamed
    }
}

/// Only which buttons there are decides the answer, not their order: the
/// fewest presses for one list of buttons are the fewest presses for every list
/// that holds the same rows.
pub proof fn lemma_same_buttons(
    first: Seq<Seq<usize>>,
    second: Seq<Seq<usize>>,
    target: Seq<usize>,
    answer: Option<usize>,
)
    requires
        forall|i: int| 0 <= i < first.len() ==> second.contains(#[trigger] first[i]),
        forall|i: int| 0 <= i < second.len() ==> first.contains(#[trigger] second[i]),
        is_min_presses(first, target, answer),
    ensures
        is_min_presses(second, target, answer),
{
    assert forall|presses: Seq<int>| #[trigger] reaches(second, presses, target) implies (
    answer is Some && answer->0 <= presses.len()) by {
        let back = lemma_relabel(second, first, presses);
        assert forall|k: int| 0 <= k < target.len() implies #[trigger] counter_after(
            first,
            back,
            k,
        ) == target[k] by {
            assert(counter_after(second, presses, k) == target[k]);
        }
        assert(reaches(first, back, target));
    }
    if answer is Some {
        let presses = choose|presses: Seq<int>| #[trigger]
            reaches(first, presses, target) && presses.len() == answer->0;
        let renamed = lemma_relabel(first, second, presses);
        assert forall|k: int| 0 <= k < target.len() implies #[trigger] counter_after(
            second,
            renamed,
            k,
        ) == target[k] by {
            assert(counter_after(first, presses, k) == target[k]);
        }
        assert(reaches(second, renamed, target));
    }
}

} // verus!

//! Fewest button presses that toggle a lock open.
//!
//! The state of the lock is a vector of bits, all zero at first. Pressing a
//! button XORs its mask into the state. [`fewest_presses`] searches the states
//! breadth first, one layer of presses at a time, until the key shows up or
//! no new state does.

use std::collections::HashSet;
use vstd::prelude::*;
use vstd::std_specs::hash::group_hash_axioms;

verus! {

/// The state after the buttons named in `presses` have been pressed, starting
/// from zero.
pub open spec fn state_after(buttons: Seq<usize>, presses: Seq<int>) -> usize
    decreases presses.len(),
{
    if presses.len() == 0 {
        0
    } else {
        state_after(buttons, presses.drop_last()) ^ buttons[presses.last()]
    }
}

/// Every press names a button, and pressing them all leaves the lock in
/// `state`.
pub open spec fn opens(buttons: Seq<usize>, presses: Seq<int>, state: usize) -> bool {
    &&& forall|j: int| 0 <= j < presses.len() ==> 0 <= #[trigger] presses[j] < buttons.len()
    &&& state_after(buttons, presses) == state
}

/// `state` shows after at most `depth` presses.
pub open spec fn within(buttons: Seq<usize>, state: usize, depth: int) -> bool {
    exists|presses: Seq<int>| #[trigger] opens(buttons, presses, state) && presses.len() <= depth
}

/// `state` shows after `depth` presses and after no fewer.
pub open spec fn first_at(buttons: Seq<usize>, state: usize, depth: int) -> bool {
    within(buttons, state, depth) && !within(buttons, state, depth - 1)
}

/// `depth` is the length of a shortest sequence of presses that leaves the
/// lock in state `key`.
pub open spec fn is_min_depth(buttons: Seq<usize>, key: usize, depth: nat) -> bool {
    &&& exists|presses: Seq<int>| #[trigger] opens(buttons, presses, key) && presses.len() == depth
    &&& forall|presses: Seq<int>| #[trigger] opens(buttons, presses, key) ==> depth <= presses.len()
}

/// No sequence of presses leaves the lock in state `key`.
pub open spec fn never_opens(buttons: Seq<usize>, key: usize) -> bool {
    forall|presses: Seq<int>| !#[trigger] opens(buttons, presses, key)
}

/// One more press leads from a state within `depth` to a state within
/// `depth + 1`.
pub proof fn lemma_within_step(buttons: Seq<usize>, state: usize, i: int, depth: int)
    requires
        within(buttons, state, depth),
        0 <= i < buttons.len(),
    ensures
        within(buttons, state ^ buttons[i], depth + 1),
{
    let presses = choose|presses: Seq<int>| #[trigger]
        opens(buttons, presses, state) && presses.len() <= depth;
    let longer = presses.push(i);
    assert(longer.drop_last() =~= presses);
    assert forall|j: int| 0 <= j < longer.len() implies 0 <= #[trigger] longer[j]
        < buttons.len() by {
        if j < presses.len() {
            assert(longer[j] == presses[j]);
        }
    }
    assert(opens(buttons, longer, state ^ buttons[i]));
}

/// A state that first shows at `depth + 1` is one press away from a state
/// that first shows at `depth`.
pub proof fn lemma_within_unstep(buttons: Seq<usize>, state: usize, depth: int) -> (from: (
    usize,
    int,
))
    requires
        0 <= depth,
        first_at(buttons, state, depth + 1),
    ensures
        first_at(buttons, from.0, depth),
        0 <= from.1 < buttons.len(),
        state == from.0 ^ buttons[from.1],
{
    let presses = choose|presses: Seq<int>| #[trigger]
        opens(buttons, presses, state) && presses.len() <= depth + 1;
    assert(presses.len() == depth + 1);
    let front = presses.drop_last();
    let i = presses.last();
    let from = state_after(buttons, front);
    assert(0 <= presses[presses.len() - 1] < buttons.len());
    assert forall|j: int| 0 <= j < front.len() implies 0 <= #[trigger] front[j]
        < buttons.len() by {
        assert(front[j] == presses[j]);
    }
    assert(opens(buttons, front, from));
    if within(buttons, from, depth - 1) {
        lemma_within_step(buttons, from, i, depth - 1);
    }
    (from, i)
}

/// If no state first shows at `depth + 1`, none shows any later.
pub proof fn lemma_closed(buttons: Seq<usize>, depth: int, presses: Seq<int>)
    requires
        0 <= depth,
        forall|state: usize| #[trigger]
            within(buttons, state, depth + 1) ==> within(buttons, state, depth),
        forall|j: int| 0 <= j < presses.len() ==> 0 <= #[trigger] presses[j] < buttons.len(),
    ensures
        within(buttons, state_after(buttons, presses), depth),
    decreases presses.len(),
{
    if presses.len() == 0 {
        assert(opens(buttons, presses, 0));
    } else {
        let front = presses.drop_last();
        assert forall|j: int| 0 <= j < front.len() implies 0 <= #[trigger] front[j]
            < buttons.len() by {
            assert(front[j] == presses[j]);
        }
        lemma_closed(buttons, depth, front);
        assert(0 <= presses[presses.len() - 1] < buttons.len());
        lemma_within_step(buttons, state_after(buttons, front), presses.last(), depth);
    }
}

/// `state` is one of the states listed in `layer`.
pub open spec fn lists(layer: Seq<usize>, state: usize) -> bool {
    exists|a: int| 0 <= a < layer.len() && #[trigger] layer[a] == state
}

/// A list with one more state lists that state and what it listed before.
pub proof fn lemma_lists_push(layer: Seq<usize>, added: usize, state: usize)
    ensures
        lists(layer.push(added), state) <==> lists(layer, state) || state == added,
{
    let longer = layer.push(added);
    if lists(layer, state) {
        let a = choose|a: int| 0 <= a < layer.len() && #[trigger] layer[a] == state;
        assert(longer[a] == state);
    }
    if state == added {
        assert(longer[layer.len() as int] == state);
    }
    if lists(longer, state) {
        let a = choose|a: int| 0 <= a < longer.len() && #[trigger] longer[a] == state;
        if a < layer.len() {
            assert(layer[a] == state);
        }
    }
}

/// The fewest presses after which the lock shows `key`, or `None` when no
/// presses of these buttons ever make it show `key`.
pub fn fewest_presses(key: usize, buttons: &[usize]) -> (depth: Option<usize>)
    ensures
        depth matches Some(d) ==> is_min_depth(buttons@, key, d as nat),
        depth is None ==> never_opens(buttons@, key),
        key == 0 ==> depth == Some(0usize),
{
    broadcast use group_hash_axioms;

    let mut visited: HashSet<usize> = HashSet::new();
    visited.insert(0);
    let mut frontier: Vec<usize> = Vec::new();
    frontier.push(0);
    let mut depth: usize = 0;
    proof {
        assert(opens(buttons@, Seq::<int>::empty(), 0));
        assert forall|state: usize| #[trigger] within(buttons@, state, 0) implies state == 0 by {
            let presses = choose|presses: Seq<int>| #[trigger]
                opens(buttons@, presses, state) && presses.len() <= 0;
            assert(presses.len() == 0);
        }
        assert forall|state: usize| !#[trigger] within(buttons@, state, -1) by {
            if within(buttons@, state, -1) {
                let presses = choose|presses: Seq<int>| #[trigger]
                    opens(buttons@, presses, state) && presses.len() <= -1;
            }
        }
        assert(frontier@[0] == 0);
        assert(visited@ =~= set![0usize]);
    }
    while !visited.contains(&key)
        invariant
            visited@.finite(),
            depth < visited@.len() <= usize::MAX,
            forall|state: usize|
                visited@.contains(state) <==> #[trigger] within(buttons@, state, depth as int),
            forall|state: usize|
                #[trigger] lists(frontier@, state) <==> first_at(buttons@, state, depth as int),
            !within(buttons@, key, depth - 1),
        decreases usize::MAX - visited@.len(),
    {
        let ghost seen = visited@;
        assert(opens(buttons@, Seq::<int>::empty(), 0));
        let mut next: Vec<usize> = Vec::new();
        let mut at: usize = 0;
        while at < frontier.len()
            invariant
                at <= frontier@.len(),
                seen.finite(),
                visited@.finite(),
                visited@.len() == seen.len() + next@.len(),
                forall|state: usize|
                    seen.contains(state) <==> #[trigger] within(buttons@, state, depth as int),
                forall|state: usize|
                    #[trigger] lists(frontier@, state) <==> first_at(buttons@, state, depth as int),
                forall|state: usize|
                    #[trigger] visited@.contains(state) <==> seen.contains(state) || lists(
                        next@,
                        state,
                    ),
                forall|state: usize|
                    #[trigger] lists(next@, state) ==> first_at(buttons@, state, depth + 1),
                forall|a: int, i: int|
                    0 <= a < at && 0 <= i < buttons@.len() ==> visited@.contains(
                        #[trigger] (frontier@[a] ^ buttons@[i]),
                    ),
            decreases frontier@.len() - at,
        {
            let state = frontier[at];
            let mut i: usize = 0;
            while i < buttons.len()
                invariant
                    i <= buttons@.len(),
                    at < frontier@.len(),
                    state == frontier@[at as int],
                    seen.finite(),
                    visited@.finite(),
                    visited@.len() == seen.len() + next@.len(),
                    forall|state: usize|
                        seen.contains(state) <==> #[trigger] within(buttons@, state, depth as int),
                    forall|state: usize|
                        #[trigger] lists(frontier@, state) <==> first_at(
                            buttons@,
                            state,
                            depth as int,
                        ),
                    forall|state: usize|
                        #[trigger] visited@.contains(state) <==> seen.contains(state) || lists(
                            next@,
                            state,
                        ),
                    forall|state: usize|
                        #[trigger] lists(next@, state) ==> first_at(buttons@, state, depth + 1),
                    forall|a: int, i: int|
                        0 <= a < at && 0 <= i < buttons@.len() ==> visited@.contains(
                            #[trigger] (frontier@[a] ^ buttons@[i]),
                        ),
                    forall|j: int|
                        0 <= j < i ==> visited@.contains(#[trigger] (state ^ buttons@[j])),
                decreases buttons@.len() - i,
            {
                let reached = state ^ buttons[i];
                if !visited.contains(&reached) {
                    let ghost earlier = next@;
                    proof {
                        assert(lists(frontier@, state));
                        lemma_within_step(buttons@, state, i as int, depth as int);
                        assert(!within(buttons@, reached, depth as int));
                    }
                    visited.insert(reached);
                    next.push(reached);
                    proof {
                        assert forall|other: usize| #[trigger]
                            visited@.contains(other) <==> seen.contains(other) || lists(
                                next@,
                                other,
                            ) by {
                            lemma_lists_push(earlier, reached, other);
                        }
                        assert forall|other: usize| #[trigger]
                            lists(next@, other) implies first_at(buttons@, other, depth + 1) by {
                            lemma_lists_push(earlier, reached, other);
                        }
                    }
                }
                i += 1;
            }
            at += 1;
        }
        if next.len() == 0 {
            proof {
                assert forall|state: usize| #[trigger]
                    within(buttons@, state, depth + 1) implies within(
                    buttons@,
                    state,
                    depth as int,
                ) by {
                    if !within(buttons@, state, depth as int) {
                        let from = lemma_within_unstep(buttons@, state, depth as int);
                        assert(lists(frontier@, from.0));
                        let a = choose|a: int|
                            0 <= a < frontier@.len() && #[trigger] frontier@[a] == from.0;
                        assert(visited@.contains(frontier@[a] ^ buttons@[from.1]));
                        assert(!lists(next@, state));
                    }
                }
                assert forall|presses: Seq<int>| !#[trigger] opens(buttons@, presses, key) by {
                    if opens(buttons@, presses, key) {
                        lemma_closed(buttons@, depth as int, presses);
                    }
                }
                assert(within(buttons@, 0, depth as int));
            }
            return None;
        }
        proof {
            assert forall|state: usize|
                visited@.contains(state) <==> #[trigger] within(buttons@, state, depth + 1) by {
                if visited@.contains(state) {
                    if seen.contains(state) {
                        assert(within(buttons@, state, depth as int));
                        let presses = choose|presses: Seq<int>| #[trigger]
                            opens(buttons@, presses, state) && presses.len() <= depth;
                        assert(opens(buttons@, presses, state) && presses.len() <= depth + 1);
                    } else {
                        assert(lists(next@, state));
                    }
                }
                if within(buttons@, state, depth + 1) && !within(buttons@, state, depth as int) {
                    let from = lemma_within_unstep(buttons@, state, depth as int);
                    assert(lists(frontier@, from.0));
                    let a = choose|a: int|
                        0 <= a < frontier@.len() && #[trigger] frontier@[a] == from.0;
                    assert(visited@.contains(frontier@[a] ^ buttons@[from.1]));
                }
            }
            assert forall|state: usize| #[trigger]
                lists(next@, state) <==> first_at(buttons@, state, depth + 1) by {
                if first_at(buttons@, state, depth + 1) {
                    assert(visited@.contains(state));
                }
            }
            assert(!within(buttons@, key, depth as int));
        }
        let size = visited.len();
        depth += 1;
        frontier = next;
    }
    proof {
        assert(within(buttons@, key, depth as int));
        let presses = choose|presses: Seq<int>| #[trigger]
            opens(buttons@, presses, key) && presses.len() <= depth;
        if presses.len() < depth {
            assert(within(buttons@, key, depth - 1));
        }
        assert(opens(buttons@, Seq::<int>::empty(), 0));
        assert forall|other: Seq<int>| #[trigger] opens(buttons@, other, key) implies depth
            <= other.len() by {
            if other.len() < depth {
                assert(within(buttons@, key, depth - 1));
            }
        }
    }
    Some(depth)
}

/// Presses of buttons from one list, renamed to buttons with the same masks
/// in another list, leave the lock in the same state.
pub proof fn lemma_relabel(from: Seq<usize>, to: Seq<usize>, presses: Seq<int>, state: usize) -> (renamed:
    Seq<int>)
    requires
        forall|i: int| 0 <= i < from.len() ==> to.contains(#[trigger] from[i]),
        opens(from, presses, state),
    ensures
        opens(to, renamed, state),
        renamed.len() == presses.len(),
    decreases presses.len(),
{
    if presses.len() == 0 {
        presses
    } else {
        let front = presses.drop_last();
        let last = presses.last();
        assert(0 <= presses[presses.len() - 1] < from.len());
        assert forall|j: int| 0 <= j < front.len() implies 0 <= #[trigger] front[j]
            < from.len() by {
            assert(front[j] == presses[j]);
        }
        let shorter = lemma_relabel(from, to, front, state_after(from, front));
        assert(to.contains(from[last]));
        let same = choose|j: int| 0 <= j < to.len() && to[j] == from[last];
        let renamed = shorter.push(same);
        assert(renamed.drop_last() =~= shorter);
        assert forall|j: int| 0 <= j < renamed.len() implies 0 <= #[trigger] renamed[j]
            < to.len() by {
            if j < shorter.len() {
                assert(renamed[j] == shorter[j]);
            }
        }
        renamed
    }
}

/// The order of the buttons does not matter: two lists that hold the same
/// buttons, in any order, open a lock with the same fewest number of presses,
/// or both not at all.
pub proof fn lemma_order_irrelevant(
    first: Seq<usize>,
    second: Seq<usize>,
    key: usize,
    depth: nat,
    other: nat,
)
    requires
        first.to_multiset() == second.to_multiset(),
    ensures
        is_min_depth(first, key, depth) <==> is_min_depth(second, key, depth),
        is_min_depth(first, key, depth) && is_min_depth(second, key, other) ==> depth == other,
        never_opens(first, key) <==> never_opens(second, key),
{
    assert forall|i: int| 0 <= i < first.len() implies second.contains(#[trigger] first[i]) by {
        assert(first.contains(first[i]));
        vstd::seq_lib::to_multiset_contains(first, first[i]);
        vstd::seq_lib::to_multiset_contains(second, first[i]);
    }
    assert forall|i: int| 0 <= i < second.len() implies first.contains(#[trigger] second[i]) by {
        assert(second.contains(second[i]));
        vstd::seq_lib::to_multiset_contains(second, second[i]);
        vstd::seq_lib::to_multiset_contains(first, second[i]);
    }
    assert forall|presses: Seq<int>| #[trigger] opens(first, presses, key) implies exists|
        renamed: Seq<int>,
    | #[trigger] opens(second, renamed, key) && renamed.len() == presses.len() by {
        let renamed = lemma_relabel(first, second, presses, key);
        assert(opens(second, renamed, key) && renamed.len() == presses.len());
    }
    assert forall|presses: Seq<int>| #[trigger] opens(second, presses, key) implies exists|
        renamed: Seq<int>,
    | #[trigger] opens(first, renamed, key) && renamed.len() == presses.len() by {
        let renamed = lemma_relabel(second, first, presses, key);
        assert(opens(first, renamed, key) && renamed.len() == presses.len());
    }
    if is_min_depth(first, key, depth) {
        let presses = choose|presses: Seq<int>| #[trigger]
            opens(first, presses, key) && presses.len() == depth;
        let renamed = lemma_relabel(first, second, presses, key);
        assert forall|any: Seq<int>| #[trigger] opens(second, any, key) implies depth
            <= any.len() by {
            let back = lemma_relabel(second, first, any, key);
        }
        assert(is_min_depth(second, key, depth));
    }
    if is_min_depth(second, key, depth) {
        let presses = choose|presses: Seq<int>| #[trigger]
            opens(second, presses, key) && presses.len() == depth;
        let renamed = lemma_relabel(second, first, presses, key);
        assert forall|any: Seq<int>| #[trigger] opens(first, any, key) implies depth
            <= any.len() by {
            let back = lemma_relabel(first, second, any, key);
        }
        assert(is_min_depth(first, key, depth));
    }
    if is_min_depth(first, key, depth) && is_min_depth(second, key, other) {
        let here = choose|presses: Seq<int>| #[trigger]
            opens(first, presses, key) && presses.len() == depth;
        let there = choose|presses: Seq<int>| #[trigger]
            opens(second, presses, key) && presses.len() == other;
        let a = lemma_relabel(first, second, here, key);
        let b = lemma_relabel(second, first, there, key);
    }
    if never_opens(first, key) && !never_opens(second, key) {
        let presses = choose|presses: Seq<int>| #[trigger] opens(second, presses, key);
        let back = lemma_relabel(second, first, presses, key);
    }
    if never_opens(second, key) && !never_opens(first, key) {
        let presses = choose|presses: Seq<int>| #[trigger] opens(first, presses, key);
        let back = lemma_relabel(first, second, presses, key);
    }
}

} // verus!

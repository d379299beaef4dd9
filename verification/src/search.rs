//! The search, as mathematics: propagation, and where it stalls, one guess
//! after the other at the first open cell, each searched in turn.

use vstd::prelude::*;
use crate::candidates::{ascending, determined, digits, lemma_single};
use crate::propagation::{
    lemma_propagate_refines, lemma_total_shrinks, propagate, total, total_upto,
};
use crate::reduction::{refines, well_formed, Outcome};

verus! {

/// Every cell is decided.
pub open spec fn solved(b: Seq<Set<int>>) -> bool {
    forall|i: int| 0 <= i < 81 ==> determined(#[trigger] b[i])
}

/// The first cell from `i` on that has more than one candidate, or 81 if
/// there is none.
pub open spec fn first_open_from(b: Seq<Set<int>>, i: int) -> int
    decreases 81 - i,
{
    if i >= 81 {
        81
    } else if b[i].len() > 1 {
        i
    } else {
        first_open_from(b, i + 1)
    }
}

/// The first cell that has more than one candidate, or 81 if there is none.
pub open spec fn first_open(b: Seq<Set<int>>) -> int {
    first_open_from(b, 0)
}

/// The number of candidates in all cells but cell `i`.
pub open spec fn rest(b: Seq<Set<int>>, i: int) -> nat {
    total(b.update(i, Set::<int>::empty()))
}

/// The board with cell `i` decided to digit `d`.
pub open spec fn guessed(b: Seq<Set<int>>, i: int, d: int) -> Seq<Set<int>> {
    b.update(i, set![d])
}

/// The board with digit `d` taken out of cell `i`.
pub open spec fn excluded(b: Seq<Set<int>>, i: int, d: int) -> Seq<Set<int>> {
    b.update(i, b[i].remove(d))
}

/// The search. Propagation comes first; a contradiction there is the end,
/// and so is a board with every cell decided. Else the first cell with
/// more than one candidate is guessed at, its digits in ascending order.
pub open spec fn search(b: Seq<Set<int>>) -> Outcome
    decreases total(b), 1int, 0int,
    when well_formed(b)
    via search_decreases
{
    let stalled = propagate(b);
    if !stalled.ok || solved(stalled.board) {
        stalled
    } else {
        let i = first_open(stalled.board);
        if i < 81 {
            branch(stalled.board, i, ascending(stalled.board[i]), 0)
        } else {
            Outcome { board: stalled.board, ok: false }
        }
    }
}

/// The guesses from the `k`-th on at cell `i`. A guess whose search ends
/// with every cell decided is the end. One whose search fails cannot be:
/// its digit leaves cell `i`, and the next guess is tried. With no guess
/// left the board is a dead end.
pub open spec fn branch(b: Seq<Set<int>>, i: int, guesses: Seq<int>, k: int) -> Outcome
    decreases rest(b, i) + 2, 0int, guesses.len() - k,
    when 0 <= i < 81 && b.len() == 81 && 0 <= k
    via branch_decreases
{
    if k >= guesses.len() {
        Outcome { board: b, ok: false }
    } else {
        let attempt = search(guessed(b, i, guesses[k]));
        if attempt.ok {
            attempt
        } else {
            branch(excluded(b, i, guesses[k]), i, guesses, k + 1)
        }
    }
}

#[via_fn]
proof fn search_decreases(b: Seq<Set<int>>) {
    let stalled = propagate(b);
    let i = first_open(stalled.board);
    if stalled.ok && !solved(stalled.board) && i < 81 {
        lemma_propagate_refines(b);
        lemma_total_shrinks(stalled.board, b);
        lemma_first_open(stalled.board);
        lemma_total_update(stalled.board, i, stalled.board[i]);
        assert(stalled.board.update(i, stalled.board[i]) =~= stalled.board);
    }
}

#[via_fn]
proof fn branch_decreases(b: Seq<Set<int>>, i: int, guesses: Seq<int>, k: int) {
    if k < guesses.len() {
        let d = guesses[k];
        lemma_total_update(b, i, set![d]);
        lemma_single(d);
        assert(excluded(b, i, d).update(i, Set::<int>::empty()) =~= b.update(
            i,
            Set::<int>::empty(),
        ));
    }
}

/// One step of `search`.
pub proof fn lemma_search_step(b: Seq<Set<int>>)
    requires
        well_formed(b),
    ensures
        !propagate(b).ok || solved(propagate(b).board) ==> search(b) == propagate(b),
        propagate(b).ok && !solved(propagate(b).board) && first_open(propagate(b).board) < 81
            ==> search(b) == branch(
            propagate(b).board,
            first_open(propagate(b).board),
            ascending(propagate(b).board[first_open(propagate(b).board)]),
            0,
        ),
        propagate(b).ok && !solved(propagate(b).board) && first_open(propagate(b).board) >= 81
            ==> search(b).board == propagate(b).board && !search(b).ok,
        well_formed(propagate(b).board),
        refines(propagate(b).board, b),
        first_open(propagate(b).board) < 81 ==> rest(
            propagate(b).board,
            first_open(propagate(b).board),
        ) + 2 <= total(b),
{
    let stalled = propagate(b);
    let i = first_open(stalled.board);
    lemma_propagate_refines(b);
    lemma_total_shrinks(stalled.board, b);
    lemma_first_open(stalled.board);
    if i < 81 {
        lemma_total_update(stalled.board, i, stalled.board[i]);
        assert(stalled.board.update(i, stalled.board[i]) =~= stalled.board);
    }
}

/// One step of `branch`.
pub proof fn lemma_branch_step(b: Seq<Set<int>>, i: int, guesses: Seq<int>, k: int)
    requires
        well_formed(b),
        0 <= i < 81,
        0 <= k,
        k < guesses.len() ==> 1 <= guesses[k] <= 9,
    ensures
        k >= guesses.len() ==> branch(b, i, guesses, k).board == b && !branch(b, i, guesses, k).ok,
        k < guesses.len() && search(guessed(b, i, guesses[k])).ok ==> branch(b, i, guesses, k)
            == search(guessed(b, i, guesses[k])),
        k < guesses.len() && !search(guessed(b, i, guesses[k])).ok ==> branch(b, i, guesses, k)
            == branch(excluded(b, i, guesses[k]), i, guesses, k + 1),
        k < guesses.len() ==> well_formed(guessed(b, i, guesses[k])),
        k < guesses.len() ==> well_formed(excluded(b, i, guesses[k])),
        k < guesses.len() ==> total(guessed(b, i, guesses[k])) == rest(b, i) + 1,
        k < guesses.len() ==> rest(excluded(b, i, guesses[k]), i) == rest(b, i),
{
    if k < guesses.len() {
        let d = guesses[k];
        lemma_total_update(b, i, set![d]);
        lemma_single(d);
        assert(excluded(b, i, d).update(i, Set::<int>::empty()) =~= b.update(
            i,
            Set::<int>::empty(),
        ));
        assert forall|j: int| 0 <= j < 81 implies (#[trigger] guessed(b, i, d)[j]).subset_of(
            digits(),
        ) && (#[trigger] excluded(b, i, d)[j]).subset_of(digits()) by {
            assert(b[j].subset_of(digits()));
        }
    }
}

proof fn lemma_total_upto_update(b: Seq<Set<int>>, i: int, s: Set<int>, n: int)
    requires
        0 <= i < b.len(),
        0 <= n <= b.len(),
    ensures
        i < n ==> total_upto(b.update(i, s), n) == total_upto(b.update(i, Set::<int>::empty()), n)
            + s.len(),
        i >= n ==> total_upto(b.update(i, s), n) == total_upto(b.update(i, Set::<int>::empty()), n),
    decreases n,
{
    if n > 0 {
        lemma_total_upto_update(b, i, s, n - 1);
    }
}

/// The candidates of a board are those of one cell and those of the rest.
pub proof fn lemma_total_update(b: Seq<Set<int>>, i: int, s: Set<int>)
    requires
        0 <= i < 81,
        b.len() == 81,
    ensures
        total(b.update(i, s)) == rest(b, i) + s.len(),
{
    lemma_total_upto_update(b, i, s, 81);
}

proof fn lemma_first_open_from(b: Seq<Set<int>>, i: int)
    requires
        0 <= i <= 81,
    ensures
        i <= first_open_from(b, i) <= 81,
        first_open_from(b, i) < 81 ==> b[first_open_from(b, i)].len() > 1,
        forall|j: int| i <= j < first_open_from(b, i) ==> (#[trigger] b[j]).len() <= 1,
    decreases 81 - i,
{
    if i < 81 && b[i].len() <= 1 {
        lemma_first_open_from(b, i + 1);
    }
}

/// The first open cell has more than one candidate, and no cell before it
/// has.
pub proof fn lemma_first_open(b: Seq<Set<int>>)
    ensures
        0 <= first_open(b) <= 81,
        first_open(b) < 81 ==> b[first_open(b)].len() > 1,
        forall|j: int| 0 <= j < first_open(b) ==> (#[trigger] b[j]).len() <= 1,
{
    lemma_first_open_from(b, 0);
}

/// A guess at a candidate of a cell refines the board, and so does the
/// board without that candidate.
pub proof fn lemma_guess_refines(b: Seq<Set<int>>, i: int, d: int)
    requires
        well_formed(b),
        0 <= i < 81,
        b[i].contains(d),
    ensures
        well_formed(guessed(b, i, d)),
        refines(guessed(b, i, d), b),
        well_formed(excluded(b, i, d)),
        refines(excluded(b, i, d), b),
{
    assert(b[i].subset_of(digits()));
    assert forall|j: int| 0 <= j < 81 implies (#[trigger] guessed(b, i, d)[j]).subset_of(b[j])
        && guessed(b, i, d)[j].subset_of(digits()) by {
        assert(b[j].subset_of(digits()));
    }
    assert forall|j: int| 0 <= j < 81 implies (#[trigger] excluded(b, i, d)[j]).subset_of(b[j])
        && excluded(b, i, d)[j].subset_of(digits()) by {
        assert(b[j].subset_of(digits()));
    }
}

} // verus!

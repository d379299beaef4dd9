//! What holds of the engine: the search finds a solution exactly where
//! there is one, and what it finds is a solution.

use vstd::prelude::*;
use crate::candidates::{
    ascending, determined, digits, lemma_ascending, lemma_candidates_finite,
    lemma_determined_is_single,
};
use crate::geometry::Kind;
use crate::propagation::{
    lemma_propagate_fixpoint, lemma_propagate_refines, lemma_refines_chain, propagate, total,
};
use crate::reduction::{clash, reduce, refines, well_formed};
use crate::search::{
    branch, excluded, first_open, guessed, lemma_branch_step, lemma_first_open,
    lemma_guess_refines, lemma_search_step, rest, search, solved,
};
use crate::solution::{
    comes_first, complete, decided, first_solution, grid_of, lemma_complete_solves,
    lemma_fits_refined, lemma_fixpoint_complete, lemma_no_clash, lemma_propagate_keeps,
    satisfiable, solves,
};

verus! {

/// The guesses from the `k`-th on are candidates of cell `i`, and no digit
/// is guessed twice.
pub open spec fn usable(b: Seq<Set<int>>, i: int, guesses: Seq<int>, k: int) -> bool {
    &&& forall|j: int| k <= j < guesses.len() ==> b[i].contains(#[trigger] guesses[j])
    &&& forall|j: int, m: int| 0 <= j < m < guesses.len() ==> guesses[j] != guesses[m]
}

proof fn lemma_usable_next(b: Seq<Set<int>>, i: int, guesses: Seq<int>, k: int)
    requires
        well_formed(b),
        0 <= i < 81,
        0 <= k < guesses.len(),
        usable(b, i, guesses, k),
    ensures
        1 <= guesses[k] <= 9,
        b[i].contains(guesses[k]),
        usable(excluded(b, i, guesses[k]), i, guesses, k + 1),
{
    assert(b[i].contains(guesses[k]));
    assert(b[i].subset_of(digits()));
    assert forall|j: int| k + 1 <= j < guesses.len() implies excluded(b, i, guesses[k])[i].contains(
        #[trigger] guesses[j],
    ) by {
        assert(b[i].contains(guesses[j]));
        assert(guesses[k] != guesses[j]);
    }
}

proof fn lemma_search_sound(b: Seq<Set<int>>)
    requires
        well_formed(b),
    ensures
        well_formed(search(b).board),
        refines(search(b).board, b),
        search(b).ok ==> complete(search(b).board),
    decreases total(b), 1int, 0int,
{
    lemma_search_step(b);
    let stalled = propagate(b);
    if !stalled.ok {
    } else if solved(stalled.board) {
        lemma_propagate_fixpoint(b);
        lemma_fixpoint_complete(stalled.board);
    } else if first_open(stalled.board) < 81 {
        let i = first_open(stalled.board);
        let guesses = ascending(stalled.board[i]);
        lemma_first_open(stalled.board);
        assert(stalled.board[i].subset_of(digits()));
        lemma_ascending(stalled.board[i]);
        lemma_branch_sound(stalled.board, i, guesses, 0);
        lemma_refines_chain(search(b).board, stalled.board, b);
    }
}

proof fn lemma_branch_sound(b: Seq<Set<int>>, i: int, guesses: Seq<int>, k: int)
    requires
        well_formed(b),
        0 <= i < 81,
        0 <= k,
        usable(b, i, guesses, k),
    ensures
        well_formed(branch(b, i, guesses, k).board),
        refines(branch(b, i, guesses, k).board, b),
        branch(b, i, guesses, k).ok ==> complete(branch(b, i, guesses, k).board),
    decreases rest(b, i) + 2, 0int, guesses.len() - k,
{
    if k < guesses.len() {
        let d = guesses[k];
        lemma_usable_next(b, i, guesses, k);
        lemma_branch_step(b, i, guesses, k);
        lemma_guess_refines(b, i, d);
        if search(guessed(b, i, d)).ok {
            lemma_search_sound(guessed(b, i, d));
            lemma_refines_chain(search(guessed(b, i, d)).board, guessed(b, i, d), b);
        } else {
            lemma_branch_sound(excluded(b, i, d), i, guesses, k + 1);
            lemma_refines_chain(
                branch(excluded(b, i, d), i, guesses, k + 1).board,
                excluded(b, i, d),
                b,
            );
        }
    } else {
        lemma_branch_step(b, i, guesses, k);
    }
}

proof fn lemma_search_finds(b: Seq<Set<int>>, g: Seq<int>)
    requires
        well_formed(b),
        solves(g, b),
    ensures
        search(b).ok,
    decreases total(b), 1int, 0int,
{
    lemma_search_step(b);
    lemma_propagate_keeps(b, g);
    let stalled = propagate(b).board;
    if !solved(stalled) {
        let i = first_open(stalled);
        lemma_first_open(stalled);
        if i >= 81 {
            assert forall|j: int| 0 <= j < 81 implies determined(
                #[trigger] stalled[j],
            ) by {
                assert(stalled[j].contains(g[j]));
                assert(stalled[j].subset_of(digits()));
                lemma_candidates_finite(stalled[j]);
                assert(stalled[j].len() <= 1);
                if stalled[j].len() == 0 {
                    stalled[j].lemma_len0_is_empty();
                }
            }
        }
        let guesses = ascending(stalled[i]);
        assert(stalled[i].subset_of(digits()));
        lemma_ascending(stalled[i]);
        assert(stalled[i].contains(g[i]));
        let m = choose|m: int| 0 <= m < guesses.len() && #[trigger] guesses[m] == g[i];
        lemma_branch_finds(stalled, i, guesses, 0, g, m);
    }
}

proof fn lemma_branch_finds(
    b: Seq<Set<int>>,
    i: int,
    guesses: Seq<int>,
    k: int,
    g: Seq<int>,
    m: int,
)
    requires
        well_formed(b),
        0 <= i < 81,
        0 <= k <= m < guesses.len(),
        usable(b, i, guesses, k),
        solves(g, b),
        guesses[m] == g[i],
    ensures
        branch(b, i, guesses, k).ok,
    decreases rest(b, i) + 2, 0int, guesses.len() - k,
{
    let d = guesses[k];
    lemma_usable_next(b, i, guesses, k);
    lemma_branch_step(b, i, guesses, k);
    if !search(guessed(b, i, d)).ok {
        if k == m {
            assert forall|j: int| 0 <= j < 81 implies (#[trigger] guessed(b, i, d)[j]).contains(
                g[j],
            ) by {
                assert(b[j].contains(g[j]));
            }
            lemma_search_finds(guessed(b, i, d), g);
        } else {
            assert forall|j: int| 0 <= j < 81 implies (#[trigger] excluded(b, i, d)[j]).contains(
                g[j],
            ) by {
                assert(b[j].contains(g[j]));
            }
            lemma_branch_finds(excluded(b, i, d), i, guesses, k + 1, g, m);
        }
    }
}

/// The cells before cell `i` are decided.
pub open spec fn decided_before(b: Seq<Set<int>>, i: int) -> bool {
    forall|j: int| 0 <= j < i ==> determined(#[trigger] b[j])
}

/// Every guess is less than the guesses after it.
pub open spec fn rising(guesses: Seq<int>) -> bool {
    forall|j: int, m: int| 0 <= j < m < guesses.len() ==> guesses[j] < guesses[m]
}

proof fn lemma_search_least(b: Seq<Set<int>>, h: Seq<int>)
    requires
        well_formed(b),
        solves(h, b),
    ensures
        search(b).ok,
        comes_first(grid_of(search(b).board), h),
    decreases total(b), 1int, 0int,
{
    lemma_search_finds(b, h);
    lemma_search_step(b);
    lemma_propagate_keeps(b, h);
    let stalled = propagate(b).board;
    if solved(stalled) {
        lemma_propagate_fixpoint(b);
        lemma_fixpoint_complete(stalled);
        lemma_complete_solves(stalled);
    } else {
        let i = first_open(stalled);
        lemma_first_open(stalled);
        assert forall|j: int| 0 <= j < i && j < 81 implies determined(
            #[trigger] stalled[j],
        ) by {
            assert(stalled[j].contains(h[j]));
            assert(stalled[j].subset_of(digits()));
            lemma_candidates_finite(stalled[j]);
            if stalled[j].len() == 0 {
                stalled[j].lemma_len0_is_empty();
            }
        }
        if i >= 81 {
            assert(solved(stalled));
        }
        let guesses = ascending(stalled[i]);
        assert(stalled[i].subset_of(digits()));
        lemma_ascending(stalled[i]);
        assert(stalled[i].contains(h[i]));
        let m = choose|m: int| 0 <= m < guesses.len() && #[trigger] guesses[m] == h[i];
        lemma_branch_least(stalled, i, guesses, 0, h, m);
    }
}

proof fn lemma_branch_least(
    b: Seq<Set<int>>,
    i: int,
    guesses: Seq<int>,
    k: int,
    h: Seq<int>,
    m: int,
)
    requires
        well_formed(b),
        0 <= i < 81,
        0 <= k <= m < guesses.len(),
        usable(b, i, guesses, k),
        rising(guesses),
        decided_before(b, i),
        solves(h, b),
        guesses[m] == h[i],
    ensures
        branch(b, i, guesses, k).ok,
        comes_first(grid_of(branch(b, i, guesses, k).board), h),
    decreases rest(b, i) + 2, 0int, guesses.len() - k,
{
    let d = guesses[k];
    lemma_usable_next(b, i, guesses, k);
    lemma_branch_step(b, i, guesses, k);
    lemma_branch_finds(b, i, guesses, k, h, m);
    if k == m {
        assert forall|j: int| 0 <= j < 81 implies (#[trigger] guessed(b, i, d)[j]).contains(
            h[j],
        ) by {
            assert(b[j].contains(h[j]));
        }
        lemma_search_least(guessed(b, i, d), h);
    } else if search(guessed(b, i, d)).ok {
        let found = search(guessed(b, i, d)).board;
        let g = grid_of(found);
        lemma_search_sound(guessed(b, i, d));
        lemma_complete_solves(found);
        assert(found[i].subset_of(guessed(b, i, d)[i]));
        assert(found[i].contains(g[i]));
        assert(g[i] == d);
        assert forall|j: int| 0 <= j < i implies g[j] == h[j] by {
            assert(found[j].subset_of(guessed(b, i, d)[j]));
            assert(found[j].contains(g[j]));
            assert(b[j].contains(h[j]));
            assert(determined(b[j]));
            assert(b[j].subset_of(digits()));
            lemma_candidates_finite(b[j]);
            lemma_determined_is_single(b[j], h[j]);
        }
        assert(g[i] < h[i]);
    } else {
        assert forall|j: int| 0 <= j < 81 implies (#[trigger] excluded(b, i, d)[j]).contains(
            h[j],
        ) by {
            assert(b[j].contains(h[j]));
        }
        assert forall|j: int| 0 <= j < i implies determined(
            #[trigger] excluded(b, i, d)[j],
        ) by {
            assert(determined(b[j]));
        }
        lemma_branch_least(excluded(b, i, d), i, guesses, k + 1, h, m);
    }
}

/// A pass that changed nothing and met no contradiction does so again:
/// run on the board that it left, it leaves that board and meets none.
pub proof fn lemma_pass_stable(b: Seq<Set<int>>, kind: Kind)
    requires
        well_formed(b),
        reduce(b, kind).ok,
        reduce(b, kind).board == b,
    ensures
        reduce(reduce(b, kind).board, kind).ok,
        reduce(reduce(b, kind).board, kind).board == reduce(b, kind).board,
{
}

/// Propagation that met no contradiction does so again: run on the
/// board that it left, it leaves that board and meets none.
pub proof fn lemma_propagation_stable(b: Seq<Set<int>>)
    requires
        well_formed(b),
        propagate(b).ok,
    ensures
        propagate(propagate(b).board) == propagate(b),
{
    lemma_propagate_refines(b);
    lemma_propagate_fixpoint(b);
}

/// The search takes candidates away and adds none, whether it succeeds or
/// fails.
pub proof fn lemma_search_refines(b: Seq<Set<int>>)
    requires
        well_formed(b),
    ensures
        well_formed(search(b).board),
        refines(search(b).board, b),
{
    lemma_search_sound(b);
}

/// Soundness. Where the search succeeds, the board that it returns is
/// complete: every cell is decided, and every row, column and square
/// holds every digit exactly once. Each cell is decided to a digit that
/// was a candidate of that cell on the board given, so the digits of the
/// cells are a solution of that board.
pub proof fn lemma_search_is_sound(b: Seq<Set<int>>)
    requires
        well_formed(b),
        search(b).ok,
    ensures
        complete(search(b).board),
        refines(search(b).board, b),
        solves(grid_of(search(b).board), b),
{
    lemma_search_sound(b);
    lemma_complete_solves(search(b).board);
    lemma_fits_refined(grid_of(search(b).board), search(b).board, b);
}

/// The search succeeds exactly on the boards that have a solution.
pub proof fn lemma_search_decides(b: Seq<Set<int>>)
    requires
        well_formed(b),
    ensures
        search(b).ok <==> satisfiable(b),
{
    if search(b).ok {
        lemma_search_is_sound(b);
    }
    if satisfiable(b) {
        let g = choose|g: Seq<int>| solves(g, b);
        lemma_search_finds(b, g);
    }
}

/// Completeness. On a board with exactly one solution the search
/// succeeds, and the board that it returns is that solution.
pub proof fn lemma_search_is_complete(b: Seq<Set<int>>, g: Seq<int>)
    requires
        well_formed(b),
        solves(g, b),
        forall|h: Seq<int>| solves(h, b) ==> h == g,
    ensures
        search(b).ok,
        search(b).board == decided(g),
{
    lemma_search_finds(b, g);
    lemma_search_is_sound(b);
    lemma_complete_solves(search(b).board);
}

/// Among the solutions of a board the search finds the first: read row
/// by row, the grid that it returns has the smaller digit in the first
/// cell in which it differs from any other solution.
pub proof fn lemma_search_finds_first(b: Seq<Set<int>>)
    requires
        well_formed(b),
        search(b).ok,
    ensures
        first_solution(grid_of(search(b).board), b),
{
    lemma_search_is_sound(b);
    assert forall|h: Seq<int>| #[trigger] solves(h, b) implies comes_first(
        grid_of(search(b).board),
        h,
    ) by {
        lemma_search_least(b, h);
    }
}

/// Determinism. What the search returns depends on nothing but the
/// candidates of the cells: boards with the same candidates in every cell
/// get the same board back, and the same verdict.
pub proof fn lemma_search_is_determined(a: Seq<Set<int>>, b: Seq<Set<int>>)
    requires
        well_formed(a),
        well_formed(b),
        forall|i: int| 0 <= i < 81 ==> a[i] == b[i],
    ensures
        search(a) == search(b),
{
    assert(a =~= b);
}

/// A board on which two decided cells of one region hold the same digit
/// is never solved: the search fails on it.
pub proof fn lemma_clash_is_detected(b: Seq<Set<int>>, kind: Kind, r: int)
    requires
        well_formed(b),
        0 <= r < 9,
        clash(b, kind, r, 9),
    ensures
        !search(b).ok,
        !satisfiable(b),
{
    if satisfiable(b) {
        let g = choose|g: Seq<int>| solves(g, b);
        lemma_no_clash(b, kind, g, r);
    }
    lemma_search_decides(b);
}

} // verus!

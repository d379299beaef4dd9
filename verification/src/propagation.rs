//! Propagation to a fixpoint, as mathematics: rounds of three passes, over
//! rows, columns and squares, until a round changes nothing or meets a
//! contradiction.

use vstd::prelude::*;
use crate::candidates::{digits, lemma_candidates_finite, lemma_shrink};
use crate::geometry::Kind;
use crate::reduction::{
    contradiction_from, lemma_swept_refines, reduce, refines, well_formed, Outcome,
};

verus! {

/// The number of candidates in the first `n` cells.
pub open spec fn total_upto(b: Seq<Set<int>>, n: int) -> nat
    decreases n,
{
    if n <= 0 {
        0
    } else {
        total_upto(b, n - 1) + b[n - 1].len()
    }
}

/// The number of candidates on the board, all cells taken together.
pub open spec fn total(b: Seq<Set<int>>) -> nat {
    total_upto(b, 81)
}

/// One round: a pass over the rows, then one over the columns, then one
/// over the squares, stopping at the first pass that meets a contradiction.
pub open spec fn round(b: Seq<Set<int>>) -> Outcome {
    let rows = reduce(b, Kind::Row);
    if !rows.ok {
        rows
    } else {
        let columns = reduce(rows.board, Kind::Column);
        if !columns.ok {
            columns
        } else {
            reduce(columns.board, Kind::Square)
        }
    }
}

/// Rounds until one meets a contradiction or changes nothing.
pub open spec fn propagate(b: Seq<Set<int>>) -> Outcome
    decreases total(b),
    when well_formed(b)
    via propagate_decreases
{
    let step = round(b);
    if !step.ok || step.board == b {
        step
    } else {
        propagate(step.board)
    }
}

#[via_fn]
proof fn propagate_decreases(b: Seq<Set<int>>) {
    let step = round(b);
    if step.ok && step.board != b {
        lemma_round_refines(b);
        lemma_total_shrinks(step.board, b);
    }
}

/// Refinement is transitive.
pub proof fn lemma_refines_chain(a: Seq<Set<int>>, b: Seq<Set<int>>, c: Seq<Set<int>>)
    requires
        refines(a, b),
        refines(b, c),
    ensures
        refines(a, c),
{
    assert forall|i: int| 0 <= i < a.len() implies (#[trigger] a[i]).subset_of(c[i]) by {
        assert(a[i].subset_of(b[i]));
        assert(b[i].subset_of(c[i]));
    }
}

/// Boards that refine each other are the same board.
pub proof fn lemma_refines_both(a: Seq<Set<int>>, b: Seq<Set<int>>)
    requires
        refines(a, b),
        refines(b, a),
    ensures
        a == b,
{
    assert forall|i: int| 0 <= i < a.len() implies a[i] == b[i] by {
        assert(a[i].subset_of(b[i]));
        assert(b[i].subset_of(a[i]));
        assert(a[i] =~= b[i]);
    }
    assert(a =~= b);
}

proof fn lemma_total_upto_shrinks(small: Seq<Set<int>>, large: Seq<Set<int>>, n: int)
    requires
        well_formed(large),
        refines(small, large),
        0 <= n <= 81,
    ensures
        total_upto(small, n) <= total_upto(large, n),
        (exists|i: int| 0 <= i < n && small[i] != large[i]) ==> total_upto(small, n) < total_upto(
            large,
            n,
        ),
    decreases n,
{
    if n > 0 {
        lemma_total_upto_shrinks(small, large, n - 1);
        assert(small[n - 1].subset_of(large[n - 1]));
        assert(large[n - 1].subset_of(digits()));
        lemma_candidates_finite(large[n - 1]);
        lemma_shrink(small[n - 1], large[n - 1]);
        if exists|i: int| 0 <= i < n && small[i] != large[i] {
            let i = choose|i: int| 0 <= i < n && small[i] != large[i];
            if i < n - 1 {
                assert(0 <= i < n - 1 && small[i] != large[i]);
            }
        }
    }
}

/// A board that refines another has no more candidates, and fewer if it
/// is another board.
pub proof fn lemma_total_shrinks(small: Seq<Set<int>>, large: Seq<Set<int>>)
    requires
        well_formed(large),
        refines(small, large),
    ensures
        total(small) <= total(large),
        small != large ==> total(small) < total(large),
{
    lemma_total_upto_shrinks(small, large, 81);
    if small != large {
        if forall|i: int| 0 <= i < 81 ==> small[i] == large[i] {
            assert(small =~= large);
        }
    }
}

/// A pass takes candidates away and adds none.
pub proof fn lemma_reduce_refines(b: Seq<Set<int>>, kind: Kind)
    requires
        well_formed(b),
    ensures
        well_formed(reduce(b, kind).board),
        refines(reduce(b, kind).board, b),
{
    match contradiction_from(b, kind, 0) {
        Some(n) => lemma_swept_refines(b, kind, n),
        None => lemma_swept_refines(b, kind, 81),
    }
}

/// A round takes candidates away and adds none.
pub proof fn lemma_round_refines(b: Seq<Set<int>>)
    requires
        well_formed(b),
    ensures
        well_formed(round(b).board),
        refines(round(b).board, b),
{
    let rows = reduce(b, Kind::Row);
    lemma_reduce_refines(b, Kind::Row);
    if rows.ok {
        let columns = reduce(rows.board, Kind::Column);
        lemma_reduce_refines(rows.board, Kind::Column);
        lemma_refines_chain(columns.board, rows.board, b);
        if columns.ok {
            let squares = reduce(columns.board, Kind::Square);
            lemma_reduce_refines(columns.board, Kind::Square);
            lemma_refines_chain(squares.board, columns.board, b);
        }
    }
}

/// A round without a contradiction leaves the board as it was exactly if
/// each of its three passes did.
pub proof fn lemma_round_unchanged(b: Seq<Set<int>>)
    requires
        well_formed(b),
        round(b).ok,
    ensures
        round(b).board == b <==> reduce(b, Kind::Row).board == b && reduce(b, Kind::Column).board
            == b && reduce(b, Kind::Square).board == b,
        round(b).board == b ==> reduce(b, Kind::Row).ok && reduce(b, Kind::Column).ok && reduce(
            b,
            Kind::Square,
        ).ok,
{
    let rows = reduce(b, Kind::Row);
    let columns = reduce(rows.board, Kind::Column);
    let squares = reduce(columns.board, Kind::Square);
    lemma_reduce_refines(b, Kind::Row);
    lemma_reduce_refines(rows.board, Kind::Column);
    lemma_reduce_refines(columns.board, Kind::Square);
    if squares.board == b {
        lemma_refines_chain(squares.board, columns.board, rows.board);
        lemma_refines_both(rows.board, b);
        lemma_refines_both(columns.board, b);
    }
}

/// Propagation takes candidates away and adds none.
pub proof fn lemma_propagate_refines(b: Seq<Set<int>>)
    requires
        well_formed(b),
    ensures
        well_formed(propagate(b).board),
        refines(propagate(b).board, b),
    decreases total(b),
{
    let step = round(b);
    lemma_round_refines(b);
    if step.ok && step.board != b {
        lemma_total_shrinks(step.board, b);
        lemma_propagate_refines(step.board);
        lemma_refines_chain(propagate(step.board).board, step.board, b);
    }
}

/// Where propagation ends without a contradiction, one more round changes
/// nothing and meets none.
pub proof fn lemma_propagate_fixpoint(b: Seq<Set<int>>)
    requires
        well_formed(b),
        propagate(b).ok,
    ensures
        round(propagate(b).board) == propagate(b),
    decreases total(b),
{
    let step = round(b);
    lemma_round_refines(b);
    if step.ok && step.board != b {
        lemma_total_shrinks(step.board, b);
        lemma_propagate_fixpoint(step.board);
    }
}

} // verus!

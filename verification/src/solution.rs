//! What a solution is, and why propagation loses none.

use vstd::prelude::*;
use vstd::relations::injective_on;
use vstd::set_lib::{lemma_int_range, lemma_map_size, lemma_subset_equality, set_int_range};
use crate::candidates::{
    determined, digits, lemma_candidates_finite, lemma_determined_has_digit,
    lemma_determined_is_single, lemma_digits,
};
use crate::geometry::{
    cell_at, cell_of_turn, lemma_cell_at, lemma_cell_of_turn, lemma_region_of, place_of,
    region_of, Kind,
};
use crate::propagation::{
    lemma_propagate_fixpoint, lemma_propagate_refines, lemma_reduce_refines,
    lemma_round_refines, lemma_round_unchanged, lemma_total_shrinks, propagate, round, total,
};
use crate::reduction::{
    alive, at, clash, contradiction_from, forbidden, holds, lemma_reduce_clear, lemma_taken_digits,
    pruned, reduce, refines, swept, twins, well_formed,
};
use crate::search::solved;

verus! {

/// A grid with a digit in each of its 81 cells.
pub open spec fn filled(g: Seq<int>) -> bool {
    &&& g.len() == 81
    &&& forall|i: int| 0 <= i < 81 ==> 1 <= #[trigger] g[i] <= 9
}

/// A filled grid in which no row, column or square holds a digit twice.
pub open spec fn proper(g: Seq<int>) -> bool {
    &&& filled(g)
    &&& forall|kind: Kind, r: int, j: int, k: int|
        #![trigger cell_at(kind, r, j), cell_at(kind, r, k)]
        0 <= r < 9 && 0 <= j < k < 9 ==> g[cell_at(kind, r, j)] != g[cell_at(kind, r, k)]
}

/// The digit of each cell of the grid is a candidate of that cell on the
/// board.
pub open spec fn fits(g: Seq<int>, b: Seq<Set<int>>) -> bool {
    forall|i: int| 0 <= i < 81 ==> (#[trigger] b[i]).contains(g[i])
}

/// The grid is a solution of the board.
pub open spec fn solves(g: Seq<int>, b: Seq<Set<int>>) -> bool {
    proper(g) && fits(g, b)
}

/// The board has a solution.
pub open spec fn satisfiable(b: Seq<Set<int>>) -> bool {
    exists|g: Seq<int>| solves(g, b)
}

/// Grid `g` is grid `h`, or comes before it in the order of the
/// dictionary, the cells read row by row: in the first cell in which the
/// two differ, `g` has the smaller digit.
pub open spec fn comes_first(g: Seq<int>, h: Seq<int>) -> bool {
    ||| g == h
    ||| exists|i: int|
        0 <= i < 81 && #[trigger] g[i] < h[i] && forall|j: int| 0 <= j < i ==> g[j] == h[j]
}

/// The grid is the first of the solutions of the board.
pub open spec fn first_solution(g: Seq<int>, b: Seq<Set<int>>) -> bool {
    &&& solves(g, b)
    &&& forall|h: Seq<int>| #[trigger] solves(h, b) ==> comes_first(g, h)
}

/// The board on which every cell is decided, to the digit that the grid
/// has there.
pub open spec fn decided(g: Seq<int>) -> Seq<Set<int>> {
    Seq::new(81, |i: int| set![g[i]])
}

/// A digit of each cell of the board; on a board with every cell decided,
/// the digit of each cell.
pub open spec fn grid_of(b: Seq<Set<int>>) -> Seq<int> {
    Seq::new(81, |i: int| b[i].choose())
}

/// Every cell is decided, and every row, column and square holds every
/// digit exactly once: each digit is held in it, and no two of its cells
/// hold the same.
pub open spec fn complete(b: Seq<Set<int>>) -> bool {
    &&& well_formed(b)
    &&& solved(b)
    &&& forall|kind: Kind, r: int|
        0 <= r < 9 ==> #[trigger] forbidden(b, kind, r) == digits() && !clash(b, kind, r, 9)
}

/// A solution has, in each cell, a digit that pruning leaves there.
pub proof fn lemma_pruned_keeps(b: Seq<Set<int>>, kind: Kind, g: Seq<int>, i: int)
    requires
        well_formed(b),
        solves(g, b),
        0 <= i < 81,
    ensures
        pruned(b, kind, i).contains(g[i]),
{
    assert(b[i].contains(g[i]));
    let r = region_of(kind, i);
    let j = place_of(kind, i);
    let d = g[i];
    lemma_region_of(kind, i);
    if !determined(b[i]) && forbidden(b, kind, r).contains(d) {
        let k = choose|k: int| 0 <= k < 9 && #[trigger] holds(b, kind, r, k, d);
        let c = cell_at(kind, r, k);
        lemma_cell_at(kind, r, k);
        assert(b[c].contains(g[c]));
        assert(b[c].subset_of(digits()));
        lemma_candidates_finite(b[c]);
        lemma_determined_is_single(b[c], d);
        assert(g[c] == d);
        if j < k {
            assert(g[cell_at(kind, r, j)] != g[cell_at(kind, r, k)]);
        } else {
            assert(g[cell_at(kind, r, k)] != g[cell_at(kind, r, j)]);
        }
    }
}

/// On a board with a solution no two decided cells of a region hold the
/// same digit.
pub proof fn lemma_no_clash(b: Seq<Set<int>>, kind: Kind, g: Seq<int>, r: int)
    requires
        well_formed(b),
        solves(g, b),
        0 <= r < 9,
    ensures
        !clash(b, kind, r, 9),
{
    if clash(b, kind, r, 9) {
        let (j, k) = choose|j: int, k: int| 0 <= j < k < 9 && #[trigger] twins(b, kind, r, j, k);
        let (cj, ck) = (cell_at(kind, r, j), cell_at(kind, r, k));
        lemma_cell_at(kind, r, j);
        lemma_cell_at(kind, r, k);
        assert(b[cj].contains(g[cj]));
        assert(b[ck].contains(g[ck]));
        assert(b[cj].subset_of(digits()));
        lemma_candidates_finite(b[cj]);
        lemma_determined_is_single(b[cj], g[cj]);
        assert(g[cell_at(kind, r, j)] != g[cell_at(kind, r, k)]);
    }
}

proof fn lemma_no_contradiction(b: Seq<Set<int>>, kind: Kind, g: Seq<int>, p: int)
    requires
        well_formed(b),
        solves(g, b),
        0 <= p <= 81,
    ensures
        contradiction_from(b, kind, p) is None,
    decreases 81 - p,
{
    if p < 81 {
        lemma_no_clash(b, kind, g, p / 9);
        lemma_cell_of_turn(kind, p);
        lemma_pruned_keeps(b, kind, g, cell_of_turn(kind, p));
        lemma_no_contradiction(b, kind, g, p + 1);
    }
}

/// A pass over a board with a solution meets no contradiction, and the
/// solution is one of the board that the pass leaves.
pub proof fn lemma_reduce_keeps(b: Seq<Set<int>>, kind: Kind, g: Seq<int>)
    requires
        well_formed(b),
        solves(g, b),
    ensures
        reduce(b, kind).ok,
        solves(g, reduce(b, kind).board),
{
    lemma_no_contradiction(b, kind, g, 0);
    let after = swept(b, kind, 81);
    assert forall|i: int| 0 <= i < 81 implies (#[trigger] after[i]).contains(g[i]) by {
        lemma_pruned_keeps(b, kind, g, i);
        assert(b[i].contains(g[i]));
    }
}

/// A round over a board with a solution meets no contradiction, and the
/// solution is one of the board that the round leaves.
pub proof fn lemma_round_keeps(b: Seq<Set<int>>, g: Seq<int>)
    requires
        well_formed(b),
        solves(g, b),
    ensures
        round(b).ok,
        solves(g, round(b).board),
{
    lemma_reduce_keeps(b, Kind::Row, g);
    lemma_reduce_refines(b, Kind::Row);
    let rows = reduce(b, Kind::Row).board;
    lemma_reduce_keeps(rows, Kind::Column, g);
    lemma_reduce_refines(rows, Kind::Column);
    let columns = reduce(rows, Kind::Column).board;
    lemma_reduce_keeps(columns, Kind::Square, g);
}

/// Propagation over a board with a solution meets no contradiction, and
/// the solution is one of the board that it leaves.
pub proof fn lemma_propagate_keeps(b: Seq<Set<int>>, g: Seq<int>)
    requires
        well_formed(b),
        solves(g, b),
    ensures
        propagate(b).ok,
        solves(g, propagate(b).board),
    decreases total(b),
{
    let step = round(b);
    lemma_round_keeps(b, g);
    lemma_round_refines(b);
    if step.board != b {
        lemma_total_shrinks(step.board, b);
        lemma_propagate_keeps(step.board, g);
    }
}

/// What holds of the board that propagation leaves: it refines the board
/// given; where propagation met no contradiction, one more round changes
/// nothing and meets none; and every solution of the board given is one of
/// the board left, and propagation met no contradiction if there is one.
pub open spec fn propagation_facts(b: Seq<Set<int>>) -> bool {
    &&& well_formed(propagate(b).board)
    &&& refines(propagate(b).board, b)
    &&& propagate(b).ok ==> round(propagate(b).board) == propagate(b)
    &&& propagate(b).ok ==> alive(propagate(b).board)
    &&& satisfiable(b) ==> propagate(b).ok
    &&& forall|g: Seq<int>| #[trigger] solves(g, b) ==> solves(g, propagate(b).board)
}

/// Propagation does what `propagation_facts` says.
pub proof fn lemma_propagate_facts(b: Seq<Set<int>>)
    requires
        well_formed(b),
    ensures
        propagation_facts(b),
{
    lemma_propagate_refines(b);
    if propagate(b).ok {
        lemma_propagate_fixpoint(b);
        lemma_round_unchanged(propagate(b).board);
        lemma_reduce_clear(propagate(b).board, Kind::Row);
    }
    if satisfiable(b) {
        lemma_propagate_keeps(b, choose|g: Seq<int>| solves(g, b));
    }
    assert forall|g: Seq<int>| #[trigger] solves(g, b) implies solves(g, propagate(b).board) by {
        lemma_propagate_keeps(b, g);
    }
}

/// A solution of a board is one of every board that it refines, as far as
/// the digits go.
pub proof fn lemma_fits_refined(g: Seq<int>, small: Seq<Set<int>>, large: Seq<Set<int>>)
    requires
        fits(g, small),
        refines(small, large),
        small.len() == 81,
    ensures
        fits(g, large),
{
    assert forall|i: int| 0 <= i < 81 implies (#[trigger] large[i]).contains(g[i]) by {
        assert(small[i].subset_of(large[i]));
        assert(small[i].contains(g[i]));
    }
}

/// In a region whose cells are all decided, with no two to the same
/// digit, every digit is held.
pub proof fn lemma_region_full(b: Seq<Set<int>>, kind: Kind, r: int)
    requires
        well_formed(b),
        solved(b),
        0 <= r < 9,
        !clash(b, kind, r, 9),
    ensures
        forbidden(b, kind, r) == digits(),
{
    let places = set_int_range(0, 9);
    let digit = |k: int| at(b, kind, r, k).choose();
    let held = places.map(digit);
    lemma_int_range(0, 9);
    lemma_digits();
    assert forall|k: int| 0 <= k < 9 implies #[trigger] holds(b, kind, r, k, digit(k)) by {
        lemma_cell_at(kind, r, k);
        let c = cell_at(kind, r, k);
        assert(determined(b[c]));
        assert(b[c].subset_of(digits()));
        lemma_candidates_finite(b[c]);
        let d = lemma_determined_has_digit(b[c]);
    }
    assert(injective_on(digit, places)) by {
        assert forall|j: int, k: int|
            places.contains(j) && places.contains(k) && #[trigger] digit(j) == #[trigger] digit(
                k,
            ) implies j == k by {
            if j != k {
                assert(holds(b, kind, r, j, digit(j)));
                assert(holds(b, kind, r, k, digit(k)));
                lemma_cell_at(kind, r, j);
                lemma_cell_at(kind, r, k);
                assert(b[cell_at(kind, r, j)].subset_of(digits()));
                assert(b[cell_at(kind, r, k)].subset_of(digits()));
                lemma_candidates_finite(at(b, kind, r, j));
                lemma_candidates_finite(at(b, kind, r, k));
                lemma_determined_is_single(at(b, kind, r, j), digit(j));
                lemma_determined_is_single(at(b, kind, r, k), digit(k));
                if j < k {
                    assert(twins(b, kind, r, j, k));
                } else {
                    assert(twins(b, kind, r, k, j));
                }
            }
        }
    }
    lemma_map_size(places, held, digit);
    lemma_taken_digits(b, kind, r, 9);
    assert forall|d: int| held.contains(d) implies forbidden(b, kind, r).contains(d) by {
        let k = choose|k: int| places.contains(k) && d == digit(k);
        assert(holds(b, kind, r, k, d));
    }
    assert(held.subset_of(digits()));
    lemma_subset_equality(held, digits());
    assert(forbidden(b, kind, r) =~= digits());
}

/// A board with every cell decided, on which one more round changes
/// nothing and meets no contradiction, is complete.
pub proof fn lemma_fixpoint_complete(b: Seq<Set<int>>)
    requires
        well_formed(b),
        solved(b),
        round(b).ok,
        round(b).board == b,
    ensures
        complete(b),
{
    lemma_round_unchanged(b);
    assert forall|kind: Kind, r: int| 0 <= r < 9 implies #[trigger] forbidden(b, kind, r)
        == digits() && !clash(b, kind, r, 9) by {
        match kind {
            Kind::Row => lemma_reduce_clear(b, Kind::Row),
            Kind::Column => lemma_reduce_clear(b, Kind::Column),
            Kind::Square => lemma_reduce_clear(b, Kind::Square),
        }
        lemma_region_full(b, kind, r);
    }
}

/// On a complete board the digits of the cells are a solution, and the
/// only one.
pub proof fn lemma_complete_solves(b: Seq<Set<int>>)
    requires
        complete(b),
    ensures
        solves(grid_of(b), b),
        b == decided(grid_of(b)),
        forall|g: Seq<int>| fits(g, b) && g.len() == 81 ==> g == grid_of(b),
{
    let g = grid_of(b);
    assert forall|i: int| 0 <= i < 81 implies b[i] == set![#[trigger] g[i]] && 1 <= g[i] <= 9 by {
        assert(determined(b[i]));
        assert(b[i].subset_of(digits()));
        lemma_candidates_finite(b[i]);
        let d = lemma_determined_has_digit(b[i]);
        lemma_determined_is_single(b[i], g[i]);
    }
    assert(b =~= decided(g));
    assert forall|kind: Kind, r: int, j: int, k: int|
        #![trigger cell_at(kind, r, j), cell_at(kind, r, k)]
        0 <= r < 9 && 0 <= j < k < 9 implies g[cell_at(kind, r, j)] != g[cell_at(kind, r, k)] by {
        lemma_cell_at(kind, r, j);
        lemma_cell_at(kind, r, k);
        assert(forbidden(b, kind, r) == digits());
        assert(!clash(b, kind, r, 9));
        if g[cell_at(kind, r, j)] == g[cell_at(kind, r, k)] {
            assert(b[cell_at(kind, r, j)] == set![g[cell_at(kind, r, j)]]);
            assert(b[cell_at(kind, r, k)] == set![g[cell_at(kind, r, k)]]);
            assert(twins(b, kind, r, j, k));
        }
    }
    assert forall|h: Seq<int>| fits(h, b) && h.len() == 81 implies h == g by {
        assert forall|i: int| 0 <= i < 81 implies h[i] == g[i] by {
            assert(b[i].contains(h[i]));
            assert(b[i] == set![g[i]]);
        }
        assert(h =~= g);
    }
}

} // verus!

//! One pass of constraint propagation, as mathematics: what it does to the
//! candidate sets of a board when every region of one kind is reduced.
//!
//! A board is a sequence of 81 candidate sets in row-major order. A pass
//! takes the regions of one kind one after the other. In each it first
//! collects the digits that decided cells hold, and it is a contradiction
//! if two of them hold the same digit. Then it takes those digits out of
//! every undecided cell, place by place, and it is a contradiction if a
//! cell is left with no candidate. The pass stops at the first
//! contradiction.

use vstd::prelude::*;
use crate::candidates::{determined, digits, lemma_candidates_finite, lemma_determined_is_single};
use crate::geometry::{
    cell_at, cell_of_turn, lemma_cell_at, lemma_cell_of_turn, lemma_region_of, region_of, turn_of,
    Kind,
};

verus! {

/// A board has 81 cells, and the candidates of each are digits.
pub open spec fn well_formed(b: Seq<Set<int>>) -> bool {
    &&& b.len() == 81
    &&& forall|i: int| 0 <= i < 81 ==> (#[trigger] b[i]).subset_of(digits())
}

/// Every candidate set of `small` lies in the one of `large` at its index.
pub open spec fn refines(small: Seq<Set<int>>, large: Seq<Set<int>>) -> bool {
    &&& small.len() == large.len()
    &&& forall|i: int| 0 <= i < small.len() ==> (#[trigger] small[i]).subset_of(large[i])
}

/// Every cell has a candidate.
pub open spec fn alive(b: Seq<Set<int>>) -> bool {
    forall|i: int| 0 <= i < 81 ==> #[trigger] b[i] != Set::<int>::empty()
}

/// The candidates of the cell at place `k` of region `r`.
pub open spec fn at(b: Seq<Set<int>>, kind: Kind, r: int, k: int) -> Set<int> {
    b[cell_at(kind, r, k)]
}

/// The cell at place `k` of region `r` is decided, and `d` is its digit.
pub open spec fn holds(b: Seq<Set<int>>, kind: Kind, r: int, k: int, d: int) -> bool {
    determined(at(b, kind, r, k)) && at(b, kind, r, k).contains(d)
}

/// The digits of the decided cells among the first `n` places of region `r`.
pub open spec fn taken(b: Seq<Set<int>>, kind: Kind, r: int, n: int) -> Set<int> {
    Set::new(|d: int| exists|k: int| 0 <= k < n && #[trigger] holds(b, kind, r, k, d))
}

/// The digits that decided cells of region `r` hold: no other cell of the
/// region can take them.
pub open spec fn forbidden(b: Seq<Set<int>>, kind: Kind, r: int) -> Set<int> {
    taken(b, kind, r, 9)
}

/// The cells at places `j` and `k` of region `r` are decided to one digit.
pub open spec fn twins(b: Seq<Set<int>>, kind: Kind, r: int, j: int, k: int) -> bool {
    determined(at(b, kind, r, j)) && at(b, kind, r, j) == at(b, kind, r, k)
}

/// Two decided cells among the first `n` places of region `r` hold the
/// same digit.
pub open spec fn clash(b: Seq<Set<int>>, kind: Kind, r: int, n: int) -> bool {
    exists|j: int, k: int| 0 <= j < k < n && #[trigger] twins(b, kind, r, j, k)
}

/// What a pass leaves of the candidates of cell `i`: a decided cell stays
/// as it is, any other loses the digits forbidden in its region.
pub open spec fn pruned(b: Seq<Set<int>>, kind: Kind, i: int) -> Set<int> {
    if determined(b[i]) {
        b[i]
    } else {
        b[i].difference(forbidden(b, kind, region_of(kind, i)))
    }
}

/// The board when the cells of the first `n` turns have been pruned.
pub open spec fn swept(b: Seq<Set<int>>, kind: Kind, n: int) -> Seq<Set<int>> {
    Seq::new(
        81,
        |i: int|
            if turn_of(kind, i) < n {
                pruned(b, kind, i)
            } else {
                b[i]
            },
    )
}

/// Pruning leaves the cell of turn `p` without a candidate.
pub open spec fn starved(b: Seq<Set<int>>, kind: Kind, p: int) -> bool {
    pruned(b, kind, cell_of_turn(kind, p)) == Set::<int>::empty()
}

/// Going on from turn `p`: the number of cells pruned when the pass meets
/// its first contradiction, or `None` if it meets none. A clash shows
/// before the first cell of its region is pruned, a starved cell when it
/// has been pruned itself.
pub open spec fn contradiction_from(b: Seq<Set<int>>, kind: Kind, p: int) -> Option<int>
    decreases 81 - p,
{
    if p >= 81 {
        None
    } else if p % 9 == 0 && clash(b, kind, p / 9, 9) {
        Some(p)
    } else if starved(b, kind, p) {
        Some(p + 1)
    } else {
        contradiction_from(b, kind, p + 1)
    }
}

/// A board, and whether the step that led to it met no contradiction.
pub ghost struct Outcome {
    pub board: Seq<Set<int>>,
    pub ok: bool,
}

/// One pass over the regions of one kind.
pub open spec fn reduce(b: Seq<Set<int>>, kind: Kind) -> Outcome {
    match contradiction_from(b, kind, 0) {
        Some(n) => Outcome { board: swept(b, kind, n), ok: false },
        None => Outcome { board: swept(b, kind, 81), ok: true },
    }
}

/// The pass meets a contradiction on the board: two decided cells of a
/// region hold the same digit, or pruning leaves a cell without a
/// candidate.
pub open spec fn contradictory(b: Seq<Set<int>>, kind: Kind) -> bool {
    ||| exists|r: int| 0 <= r < 9 && #[trigger] clash(b, kind, r, 9)
    ||| exists|p: int| 0 <= p < 81 && #[trigger] starved(b, kind, p)
}

proof fn lemma_clear_from(b: Seq<Set<int>>, kind: Kind, p: int, q: int)
    requires
        0 <= p <= q < 81,
        contradiction_from(b, kind, p) is None,
    ensures
        !starved(b, kind, q),
        q % 9 == 0 ==> !clash(b, kind, q / 9, 9),
    decreases q - p,
{
    if p < q {
        lemma_clear_from(b, kind, p + 1, q);
    }
}

proof fn lemma_none_from(b: Seq<Set<int>>, kind: Kind, p: int)
    requires
        0 <= p <= 81,
        !contradictory(b, kind),
    ensures
        contradiction_from(b, kind, p) is None,
    decreases 81 - p,
{
    if p < 81 {
        assert(!starved(b, kind, p));
        if p % 9 == 0 {
            assert(!clash(b, kind, p / 9, 9));
        }
        lemma_none_from(b, kind, p + 1);
    }
}

/// A pass that meets no contradiction has found no clash in any region
/// and has left no cell without a candidate.
pub proof fn lemma_reduce_clear(b: Seq<Set<int>>, kind: Kind)
    requires
        reduce(b, kind).ok,
    ensures
        forall|r: int| 0 <= r < 9 ==> !#[trigger] clash(b, kind, r, 9),
        forall|p: int| 0 <= p < 81 ==> !#[trigger] starved(b, kind, p),
        alive(reduce(b, kind).board),
{
    assert forall|r: int| 0 <= r < 9 implies !#[trigger] clash(b, kind, r, 9) by {
        lemma_clear_from(b, kind, 0, 9 * r);
    }
    assert forall|p: int| 0 <= p < 81 implies !#[trigger] starved(b, kind, p) by {
        lemma_clear_from(b, kind, 0, p);
    }
    assert forall|i: int| 0 <= i < 81 implies #[trigger] reduce(b, kind).board[i]
        != Set::<int>::empty() by {
        lemma_region_of(kind, i);
        assert(!starved(b, kind, turn_of(kind, i)));
    }
}

/// What a pass comes to. It meets a contradiction exactly on a board on
/// which two decided cells of a region hold the same digit, or on which
/// pruning leaves a cell without a candidate. Without one, it leaves every
/// cell pruned, and with a candidate.
pub proof fn lemma_reduce_outcome(b: Seq<Set<int>>, kind: Kind)
    ensures
        reduce(b, kind).ok <==> !contradictory(b, kind),
        reduce(b, kind).ok ==> forall|i: int|
            0 <= i < 81 ==> #[trigger] reduce(b, kind).board[i] == pruned(b, kind, i),
        reduce(b, kind).ok ==> alive(reduce(b, kind).board),
{
    if reduce(b, kind).ok {
        lemma_reduce_clear(b, kind);
        assert forall|i: int| 0 <= i < 81 implies #[trigger] reduce(b, kind).board[i] == pruned(
            b,
            kind,
            i,
        ) by {
            lemma_region_of(kind, i);
        }
    }
    if !contradictory(b, kind) {
        lemma_none_from(b, kind, 0);
    }
}

/// With no cell pruned the board is as it was.
pub proof fn lemma_swept_none(b: Seq<Set<int>>, kind: Kind)
    requires
        b.len() == 81,
    ensures
        swept(b, kind, 0) == b,
{
    assert forall|i: int| 0 <= i < 81 implies swept(b, kind, 0)[i] == b[i] by {
        lemma_region_of(kind, i);
    }
    assert(swept(b, kind, 0) =~= b);
}

/// Pruning one more cell changes that cell and no other.
pub proof fn lemma_swept_step(b: Seq<Set<int>>, kind: Kind, p: int)
    requires
        0 <= p < 81,
    ensures
        swept(b, kind, p + 1) == swept(b, kind, p).update(
            cell_of_turn(kind, p),
            pruned(b, kind, cell_of_turn(kind, p)),
        ),
        swept(b, kind, p)[cell_of_turn(kind, p)] == b[cell_of_turn(kind, p)],
{
    lemma_cell_of_turn(kind, p);
    let c = cell_of_turn(kind, p);
    let next = swept(b, kind, p).update(c, pruned(b, kind, c));
    assert forall|i: int| 0 <= i < 81 implies swept(b, kind, p + 1)[i] == next[i] by {
        lemma_region_of(kind, i);
    }
    assert(swept(b, kind, p + 1) =~= next);
}

/// A cell whose turn has not come is as it was.
pub proof fn lemma_swept_later(b: Seq<Set<int>>, kind: Kind, n: int, r: int, k: int)
    requires
        0 <= r < 9,
        0 <= k < 9,
        n <= r * 9 + k,
    ensures
        at(swept(b, kind, n), kind, r, k) == at(b, kind, r, k),
{
    lemma_cell_at(kind, r, k);
}

/// Pruning takes candidates away and adds none.
pub proof fn lemma_swept_refines(b: Seq<Set<int>>, kind: Kind, n: int)
    requires
        well_formed(b),
    ensures
        well_formed(swept(b, kind, n)),
        refines(swept(b, kind, n), b),
{
    let s = swept(b, kind, n);
    assert forall|i: int| 0 <= i < 81 implies (#[trigger] s[i]).subset_of(b[i]) && s[i].subset_of(
        digits(),
    ) by {
        assert(b[i].subset_of(digits()));
    }
}

/// The board has changed after `p + 1` turns exactly if it had changed
/// after `p` turns or the cell of turn `p` lost a candidate.
pub proof fn lemma_swept_changed(b: Seq<Set<int>>, kind: Kind, p: int)
    requires
        b.len() == 81,
        0 <= p < 81,
    ensures
        (swept(b, kind, p + 1) != b) == (swept(b, kind, p) != b || pruned(
            b,
            kind,
            cell_of_turn(kind, p),
        ) != b[cell_of_turn(kind, p)]),
{
    lemma_cell_of_turn(kind, p);
    let c = cell_of_turn(kind, p);
    let before = swept(b, kind, p);
    let after = swept(b, kind, p + 1);
    if after == b {
        assert forall|i: int| 0 <= i < 81 implies before[i] == b[i] by {
            assert(after[i] == b[i]);
        }
        assert(before =~= b);
        assert(after[c] == pruned(b, kind, c));
    } else if before == b && pruned(b, kind, c) == b[c] {
        assert forall|i: int| 0 <= i < 81 implies after[i] == b[i] by {
            assert(before[i] == b[i]);
            lemma_region_of(kind, i);
        }
        assert(after =~= b);
    }
}

/// How the digits taken grow from one place to the next.
pub proof fn lemma_taken_step(b: Seq<Set<int>>, kind: Kind, r: int, k: int)
    requires
        0 <= k,
    ensures
        taken(b, kind, r, 0) == Set::<int>::empty(),
        determined(at(b, kind, r, k)) ==> taken(b, kind, r, k + 1) == taken(b, kind, r, k).union(
            at(b, kind, r, k),
        ),
        !determined(at(b, kind, r, k)) ==> taken(b, kind, r, k + 1) == taken(b, kind, r, k),
{
    assert(taken(b, kind, r, 0) =~= Set::<int>::empty());
    let next = if determined(at(b, kind, r, k)) {
        taken(b, kind, r, k).union(at(b, kind, r, k))
    } else {
        taken(b, kind, r, k)
    };
    assert forall|d: int| taken(b, kind, r, k + 1).contains(d) implies next.contains(d) by {
        let j = choose|j: int| 0 <= j < k + 1 && #[trigger] holds(b, kind, r, j, d);
        if j < k {
            assert(taken(b, kind, r, k).contains(d));
        }
    }
    assert forall|d: int| next.contains(d) implies taken(b, kind, r, k + 1).contains(d) by {
        if taken(b, kind, r, k).contains(d) {
            let j = choose|j: int| 0 <= j < k && #[trigger] holds(b, kind, r, j, d);
            assert(holds(b, kind, r, j, d));
        } else {
            assert(holds(b, kind, r, k, d));
        }
    }
    assert(taken(b, kind, r, k + 1) =~= next);
}

/// The digits taken are digits.
pub proof fn lemma_taken_digits(b: Seq<Set<int>>, kind: Kind, r: int, n: int)
    requires
        well_formed(b),
        0 <= r < 9,
        0 <= n <= 9,
    ensures
        taken(b, kind, r, n).subset_of(digits()),
{
    assert forall|d: int| taken(b, kind, r, n).contains(d) implies digits().contains(d) by {
        let k = choose|k: int| 0 <= k < n && #[trigger] holds(b, kind, r, k, d);
        lemma_cell_at(kind, r, k);
        assert(b[cell_at(kind, r, k)].subset_of(digits()));
    }
}

/// A clash among some places is a clash among more.
pub proof fn lemma_clash_grows(b: Seq<Set<int>>, kind: Kind, r: int, n: int, m: int)
    requires
        clash(b, kind, r, n),
        n <= m,
    ensures
        clash(b, kind, r, m),
{
    let (j, k) = choose|j: int, k: int| 0 <= j < k < n && #[trigger] twins(b, kind, r, j, k);
    assert(twins(b, kind, r, j, k));
}

/// A first clash shows at place `k` exactly if the cell there is decided to
/// a digit that was taken before.
pub proof fn lemma_clash_step(b: Seq<Set<int>>, kind: Kind, r: int, k: int)
    requires
        well_formed(b),
        0 <= r < 9,
        0 <= k < 9,
        !clash(b, kind, r, k),
    ensures
        clash(b, kind, r, k + 1) == (determined(at(b, kind, r, k)) && !at(b, kind, r, k).subset_of(
            digits().difference(taken(b, kind, r, k)),
        )),
{
    let here = at(b, kind, r, k);
    lemma_cell_at(kind, r, k);
    assert(b[cell_at(kind, r, k)].subset_of(digits()));
    lemma_candidates_finite(here);
    if clash(b, kind, r, k + 1) {
        let (i, j) = choose|i: int, j: int|
            0 <= i < j < k + 1 && #[trigger] twins(b, kind, r, i, j);
        if j < k {
            assert(twins(b, kind, r, i, j));
        }
        assert(j == k);
        let d = here.choose();
        assert(holds(b, kind, r, i, d));
        assert(taken(b, kind, r, k).contains(d));
    }
    if determined(here) && !here.subset_of(digits().difference(taken(b, kind, r, k))) {
        let free = digits().difference(taken(b, kind, r, k));
        let d = choose|d: int| here.contains(d) && !free.contains(d);
        assert(taken(b, kind, r, k).contains(d));
        let i = choose|i: int| 0 <= i < k && #[trigger] holds(b, kind, r, i, d);
        lemma_cell_at(kind, r, i);
        assert(b[cell_at(kind, r, i)].subset_of(digits()));
        lemma_candidates_finite(at(b, kind, r, i));
        lemma_determined_is_single(at(b, kind, r, i), d);
        lemma_determined_is_single(here, d);
        assert(twins(b, kind, r, i, k));
    }
}

} // verus!

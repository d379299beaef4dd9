//! The board: 81 cells in row-major order, and the engine that solves it.

use vstd::prelude::*;
use crate::candidates::{ascending, determined, digits, lemma_ascending};
use crate::cell::{candidates_of, Cell, InvalidInput};
use crate::geometry::{cell_index, lemma_cell_at, lemma_cell_of_turn, Kind};
use crate::propagation::{
    lemma_reduce_refines, lemma_round_refines, lemma_round_unchanged, lemma_total_shrinks,
    propagate, round, total,
};
use crate::laws::{
    lemma_search_decides, lemma_search_finds_first, lemma_search_is_sound, lemma_search_refines,
};
use crate::solution::{
    complete, first_solution, grid_of, lemma_propagate_facts, propagation_facts, satisfiable,
    solves,
};
use crate::search::{
    branch, excluded, first_open, first_open_from, guessed, lemma_branch_step, lemma_search_step,
    rest, search, solved,
};
use crate::reduction::{
    alive, at, clash, contradiction_from, contradictory, forbidden, lemma_clash_grows,
    lemma_clash_step, lemma_reduce_outcome,
    lemma_swept_changed, lemma_swept_later, lemma_swept_none, lemma_swept_step,
    lemma_taken_digits, lemma_taken_step, pruned, reduce, refines, starved, swept, taken,
    well_formed,
};

verus! {

/// What the input values say of each cell: `0` is a blank, for which every
/// digit is a candidate; a digit decides its cell.
pub open spec fn givens(data: Seq<u8>) -> Seq<Set<int>> {
    Seq::new(
        81,
        |i: int|
            if data[i] == 0 {
                digits()
            } else {
                set![data[i] as int]
            },
    )
}

/// The digit of a decided cell, and `0` for any other cell.
pub open spec fn digit_or_blank(s: Set<int>) -> int {
    if determined(s) {
        s.choose()
    } else {
        0
    }
}

/// Input values that make a board: 81 of them, none above nine.
pub open spec fn valid_values(data: Seq<u8>) -> bool {
    &&& data.len() == 81
    &&& forall|i: int| 0 <= i < 81 ==> #[trigger] data[i] <= 9
}

/// A Sudoku board.
#[derive(PartialEq, Eq, Debug)]
pub struct Board {
    cells: Vec<Cell>,
}

impl Clone for Board {
    /// A board of its own with the same candidates in every cell.
    fn clone(&self) -> (r: Board)
        ensures
            r@ == self@,
            well_formed(r@),
    {
        proof {
            use_type_invariant(self);
        }
        let cells = self.cells.clone();
        assert(cells@ =~= self.cells@);
        let r = Board { cells };
        assert(r@ =~= self@);
        proof {
            r.lemma_view();
        }
        r
    }
}

impl View for Board {
    type V = Seq<Set<int>>;

    /// The candidates of each cell, in row-major order.
    closed spec fn view(&self) -> Seq<Set<int>> {
        Seq::new(self.cells@.len(), |i: int| self.cells@[i]@)
    }
}

impl Board {
    /// Width of a box.
    pub const SIZE: usize = 3;

    /// Number of digits, and of cells in every row, column and box.
    pub const DSIZE: usize = 9;

    /// What holds of every board: it has 81 cells.
    #[verifier::type_invariant]
    pub closed spec fn inv(self) -> bool {
        self.cells@.len() == 81
    }

    /// The view of a board is a board, whatever the board.
    pub proof fn lemma_view(self)
        requires
            self.inv(),
        ensures
            well_formed(self@),
    {
        assert forall|i: int| 0 <= i < 81 implies (#[trigger] self@[i]).subset_of(digits()) by {
            self.cells@[i].lemma_view_digits();
        }
    }

    /// The board for 81 input values in row-major order.
    pub fn from_values(data: &[u8]) -> (b: Board)
        requires
            valid_values(data@),
        ensures
            b@ == givens(data@),
            well_formed(b@),
    {
        let mut cells: Vec<Cell> = Vec::new();
        let mut i: usize = 0;
        while i < 81
            invariant
                i <= 81,
                valid_values(data@),
                cells@.len() == i,
                forall|j: int| 0 <= j < i ==> (#[trigger] cells@[j])@ == givens(data@)[j],
            decreases 81 - i,
        {
            cells.push(Cell::from_value(data[i]));
            i = i + 1;
        }
        let b = Board { cells };
        assert(b@ =~= givens(data@));
        proof {
            b.lemma_view();
        }
        b
    }

    /// The board for 81 input values, or the reason why they make none.
    pub fn try_from_values(data: &[u8]) -> (r: Result<Board, InvalidInput>)
        ensures
            r is Ok <==> valid_values(data@),
            r matches Ok(b) ==> b@ == givens(data@) && well_formed(b@),
    {
        if data.len() != 81 {
            return Err(InvalidInput);
        }
        let mut i: usize = 0;
        while i < 81
            invariant
                i <= 81,
                data@.len() == 81,
                forall|j: int| 0 <= j < i ==> #[trigger] data@[j] <= 9,
            decreases 81 - i,
        {
            if data[i] > 9 {
                return Err(InvalidInput);
            }
            i = i + 1;
        }
        Ok(Board::from_values(data))
    }

    /// The board whose cells have the candidates that 81 masks stand for.
    pub fn from_bits(data: &[u16]) -> (b: Board)
        requires
            data@.len() == 81,
        ensures
            b@ == Seq::new(81, |i: int| candidates_of(data@[i])),
            well_formed(b@),
    {
        let mut cells: Vec<Cell> = Vec::new();
        let mut i: usize = 0;
        while i < 81
            invariant
                i <= 81,
                data@.len() == 81,
                cells@.len() == i,
                forall|j: int| 0 <= j < i ==> (#[trigger] cells@[j])@ == candidates_of(data@[j]),
            decreases 81 - i,
        {
            cells.push(Cell::from_bits(data[i]));
            i = i + 1;
        }
        let b = Board { cells };
        assert(b@ =~= Seq::new(81, |i: int| candidates_of(data@[i])));
        proof {
            b.lemma_view();
        }
        b
    }

    /// The cell at index `i`, the cells counted row by row from zero.
    pub fn cell(&self, i: usize) -> (r: Cell)
        requires
            i < 81,
        ensures
            r@ == self@[i as int],
    {
        proof {
            use_type_invariant(self);
        }
        self.cells[i]
    }

    /// What the cells say: the digit of each decided cell, and `0` for
    /// every other. Of a board with every cell decided these are the digits
    /// of its grid, and the input values that make the same board.
    pub fn values(&self) -> (r: Vec<u8>)
        ensures
            r@.len() == 81,
            forall|i: int| 0 <= i < 81 ==> #[trigger] r@[i] == digit_or_blank(self@[i]),
            solved(self@) ==> valid_values(r@) && givens(r@) == self@,
            solved(self@) ==> r@.map_values(|value: u8| value as int) == grid_of(self@),
    {
        proof {
            use_type_invariant(self);
            self.lemma_view();
        }
        let mut out: Vec<u8> = Vec::new();
        let mut i: usize = 0;
        while i < 81
            invariant
                i <= 81,
                self.cells@.len() == 81,
                well_formed(self@),
                out@.len() == i,
                forall|j: int| 0 <= j < i ==> #[trigger] out@[j] == digit_or_blank(self@[j]),
                forall|j: int|
                    0 <= j < i && determined(self@[j]) ==> self@[j] == set![
                        #[trigger] out@[j] as int,
                    ] && 1 <= out@[j] <= 9,
            decreases 81 - i,
        {
            let value = match self.cells[i].value() {
                Some(digit) => digit,
                None => 0,
            };
            proof {
                let s = self@[i as int];
                assert(s.subset_of(digits()));
                if determined(s) {
                    assert(s.contains(value as int));
                    assert(s.contains(s.choose()));
                }
            }
            out.push(value);
            i = i + 1;
        }
        proof {
            if solved(self@) {
                assert forall|j: int| 0 <= j < 81 implies #[trigger] out@[j] <= 9 && givens(
                    out@,
                )[j] == self@[j] by {
                    assert(determined(self@[j]));
                }
                assert(givens(out@) =~= self@);
                assert(out@.map_values(|value: u8| value as int) =~= grid_of(self@));
            }
        }
        out
    }

    /// The masks of the cells: bit `d - 1` of a mask is set exactly for the
    /// candidates `d` of its cell, and no higher bit is set.
    pub fn bits(&self) -> (r: Vec<u16>)
        ensures
            r@.len() == 81,
            forall|i: int|
                0 <= i < 81 ==> #[trigger] r@[i] <= 0x1ff && candidates_of(r@[i]) == self@[i],
    {
        proof {
            use_type_invariant(self);
        }
        let mut out: Vec<u16> = Vec::new();
        let mut i: usize = 0;
        while i < 81
            invariant
                i <= 81,
                self.cells@.len() == 81,
                out@.len() == i,
                forall|j: int|
                    0 <= j < i ==> #[trigger] out@[j] <= 0x1ff && candidates_of(out@[j])
                        == self@[j],
            decreases 81 - i,
        {
            out.push(self.cells[i].bits());
            i = i + 1;
        }
        out
    }

    /// One pass over the regions of one kind. The board is left as the
    /// pass leaves it, also where it stops at a contradiction; without
    /// one, the result says whether a cell lost a candidate.
    pub fn reduce(&mut self, kind: Kind) -> (r: Result<bool, ()>)
        ensures
            final(self)@ == reduce(old(self)@, kind).board,
            r is Ok <==> reduce(old(self)@, kind).ok,
            r is Err <==> contradictory(old(self)@, kind),
            r is Ok ==> forall|i: int|
                0 <= i < 81 ==> #[trigger] final(self)@[i] == pruned(old(self)@, kind, i),
            r matches Ok(changed) ==> changed == (final(self)@ != old(self)@),
            r is Ok ==> alive(final(self)@),
            well_formed(final(self)@),
            refines(final(self)@, old(self)@),
    {
        let ghost start = self@;
        proof {
            use_type_invariant(&*self);
            self.lemma_view();
            lemma_swept_none(start, kind);
            lemma_reduce_outcome(start, kind);
            lemma_reduce_refines(start, kind);
        }
        let mut changed = false;
        let mut r: usize = 0;
        while r < 9
            invariant
                r <= 9,
                start == old(self)@,
                well_formed(start),
                self.cells@.len() == 81,
                self@ == swept(start, kind, 9 * r),
                contradiction_from(start, kind, 0) == contradiction_from(start, kind, 9 * r),
                changed == (self@ != start),
            decreases 9 - r,
        {
            let mut free = Cell::all();
            let mut k: usize = 0;
            while k < 9
                invariant
                    k <= 9,
                    r < 9,
                    start == old(self)@,
                    well_formed(start),
                    self.cells@.len() == 81,
                    self@ == swept(start, kind, 9 * r),
                    contradiction_from(start, kind, 0) == contradiction_from(start, kind, 9 * r),
                    !clash(start, kind, r as int, k as int),
                    free@ == digits().difference(taken(start, kind, r as int, k as int)),
                decreases 9 - k,
            {
                let idx = cell_index(kind, r, k);
                let cell = self.cells[idx];
                proof {
                    lemma_swept_later(start, kind, 9 * r, r as int, k as int);
                    assert(cell@ == at(start, kind, r as int, k as int));
                    lemma_clash_step(start, kind, r as int, k as int);
                    lemma_taken_step(start, kind, r as int, k as int);
                }
                match free.update_candidates(cell) {
                    Err(_) => {
                        proof {
                            lemma_clash_grows(start, kind, r as int, k + 1, 9);
                            assert((9 * r) / 9 == r && (9 * r) % 9 == 0);
                        }
                        return Err(());
                    },
                    Ok(_) => {
                        assert(free@ =~= digits().difference(
                            taken(start, kind, r as int, k + 1),
                        ));
                    },
                }
                k = k + 1;
            }
            let barred = free.complement();
            proof {
                lemma_taken_digits(start, kind, r as int, 9);
                assert(barred@ =~= forbidden(start, kind, r as int));
            }
            let mut k: usize = 0;
            while k < 9
                invariant
                    k <= 9,
                    r < 9,
                    start == old(self)@,
                    well_formed(start),
                    self.cells@.len() == 81,
                    self@ == swept(start, kind, 9 * r + k),
                    contradiction_from(start, kind, 0) == contradiction_from(
                        start,
                        kind,
                        9 * r + k,
                    ),
                    !clash(start, kind, r as int, 9),
                    barred@ == forbidden(start, kind, r as int),
                    changed == (self@ != start),
                decreases 9 - k,
            {
                let ghost p = 9 * r + k;
                let ghost before = self@;
                let idx = cell_index(kind, r, k);
                let mut cell = self.cells[idx];
                proof {
                    assert(p / 9 == r && p % 9 == k);
                    lemma_cell_of_turn(kind, p);
                    lemma_cell_at(kind, r as int, k as int);
                    lemma_swept_step(start, kind, p);
                    lemma_swept_changed(start, kind, p);
                    assert(cell@ == start[idx as int]);
                }
                let res = cell.update_cell(barred);
                self.cells[idx] = cell;
                proof {
                    assert(cell@ == pruned(start, kind, idx as int));
                    assert(self@ =~= before.update(idx as int, cell@));
                    assert(self@ == swept(start, kind, p + 1));
                }
                match res {
                    Err(_) => {
                        assert(starved(start, kind, p));
                        return Err(());
                    },
                    Ok(c) => {
                        changed = changed || c;
                    },
                }
                k = k + 1;
            }
            r = r + 1;
        }
        Ok(changed)
    }

    /// One pass over the rows.
    pub fn solve_rows(&mut self) -> (r: Result<bool, ()>)
        ensures
            final(self)@ == reduce(old(self)@, Kind::Row).board,
            r is Ok <==> reduce(old(self)@, Kind::Row).ok,
            r is Err <==> contradictory(old(self)@, Kind::Row),
            r is Ok ==> forall|i: int|
                0 <= i < 81 ==> #[trigger] final(self)@[i] == pruned(old(self)@, Kind::Row, i),
            r matches Ok(changed) ==> changed == (final(self)@ != old(self)@),
            r is Ok ==> alive(final(self)@),
            well_formed(final(self)@),
            refines(final(self)@, old(self)@),
    {
        self.reduce(Kind::Row)
    }

    /// One pass over the columns.
    pub fn solve_columns(&mut self) -> (r: Result<bool, ()>)
        ensures
            final(self)@ == reduce(old(self)@, Kind::Column).board,
            r is Ok <==> reduce(old(self)@, Kind::Column).ok,
            r is Err <==> contradictory(old(self)@, Kind::Column),
            r is Ok ==> forall|i: int|
                0 <= i < 81 ==> #[trigger] final(self)@[i] == pruned(old(self)@, Kind::Column, i),
            r matches Ok(changed) ==> changed == (final(self)@ != old(self)@),
            r is Ok ==> alive(final(self)@),
            well_formed(final(self)@),
            refines(final(self)@, old(self)@),
    {
        self.reduce(Kind::Column)
    }

    /// One pass over the squares.
    pub fn solve_squares(&mut self) -> (r: Result<bool, ()>)
        ensures
            final(self)@ == reduce(old(self)@, Kind::Square).board,
            r is Ok <==> reduce(old(self)@, Kind::Square).ok,
            r is Err <==> contradictory(old(self)@, Kind::Square),
            r is Ok ==> forall|i: int|
                0 <= i < 81 ==> #[trigger] final(self)@[i] == pruned(old(self)@, Kind::Square, i),
            r matches Ok(changed) ==> changed == (final(self)@ != old(self)@),
            r is Ok ==> alive(final(self)@),
            well_formed(final(self)@),
            refines(final(self)@, old(self)@),
    {
        self.reduce(Kind::Square)
    }
    /// Propagation: rounds of a pass over the rows, one over the columns
    /// and one over the squares, until a round changes nothing or a pass
    /// meets a contradiction. The board is left as the last pass left it.
    pub fn solve_all(&mut self) -> (r: Result<(), ()>)
        ensures
            final(self)@ == propagate(old(self)@).board,
            r is Ok <==> propagate(old(self)@).ok,
            well_formed(final(self)@),
            refines(final(self)@, old(self)@),
            r is Ok ==> round(final(self)@).ok && round(final(self)@).board == final(self)@,
            r is Ok ==> alive(final(self)@),
            satisfiable(old(self)@) ==> r is Ok,
            forall|g: Seq<int>| #[trigger] solves(g, old(self)@) ==> solves(g, final(self)@),
    {
        proof {
            use_type_invariant(&*self);
            self.lemma_view();
            lemma_propagate_facts(self@);
        }
        loop
            invariant
                self.cells@.len() == 81,
                well_formed(self@),
                propagate(self@) == propagate(old(self)@),
                propagation_facts(old(self)@),
            decreases total(self@),
        {
            let ghost before = self@;
            proof {
                lemma_round_refines(before);
                lemma_reduce_refines(before, Kind::Row);
            }
            let rows = match self.solve_rows() {
                Ok(changed) => changed,
                Err(_) => {
                    return Err(());
                },
            };
            proof {
                lemma_reduce_refines(self@, Kind::Column);
            }
            let columns = match self.solve_columns() {
                Ok(changed) => changed,
                Err(_) => {
                    return Err(());
                },
            };
            proof {
                lemma_reduce_refines(self@, Kind::Square);
            }
            let squares = match self.solve_squares() {
                Ok(changed) => changed,
                Err(_) => {
                    return Err(());
                },
            };
            proof {
                lemma_round_unchanged(before);
                lemma_total_shrinks(self@, before);
            }
            if !(rows || columns || squares) {
                return Ok(());
            }
        }
    }

    /// Whether every cell is decided.
    pub fn solved(&self) -> (r: bool)
        ensures
            r == solved(self@),
    {
        proof {
            use_type_invariant(self);
        }
        let mut i: usize = 0;
        while i < 81
            invariant
                i <= 81,
                self.cells@.len() == 81,
                forall|j: int| 0 <= j < i ==> determined(#[trigger] self@[j]),
            decreases 81 - i,
        {
            if self.cells[i].num_candidates() != 1 {
                assert(!determined(self@[i as int]));
                return false;
            }
            i = i + 1;
        }
        true
    }

    /// The index of the first cell with more than one candidate, or 81 if
    /// there is none.
    pub fn first_open(&self) -> (i: usize)
        ensures
            i == first_open(self@),
            i <= 81,
    {
        proof {
            use_type_invariant(self);
        }
        let mut i: usize = 0;
        while i < 81
            invariant
                i <= 81,
                self.cells@.len() == 81,
                first_open(self@) == first_open_from(self@, i as int),
            decreases 81 - i,
        {
            if self.cells[i].num_candidates() > 1 {
                return i;
            }
            i = i + 1;
        }
        i
    }

    /// Solves the board: propagation, and where it stalls, one guess after
    /// the other at the first open cell, each solved in turn. `Ok` holds
    /// the board with every cell decided; `Err` holds the board as it was
    /// when the last contradiction showed.
    pub fn solve(self) -> (r: Result<Board, Board>)
        ensures
            r is Ok <==> search(self@).ok,
            r matches Ok(s) ==> s@ == search(self@).board,
            r matches Err(s) ==> s@ == search(self@).board,
            r is Ok <==> satisfiable(self@),
            r matches Ok(s) ==> complete(s@) && first_solution(grid_of(s@), self@),
            r matches Ok(s) ==> refines(s@, self@),
            r matches Err(s) ==> well_formed(s@) && refines(s@, self@),
        decreases total(self@),
    {
        let mut board = self;
        proof {
            use_type_invariant(&board);
            board.lemma_view();
            lemma_search_step(self@);
            lemma_search_refines(self@);
            lemma_search_decides(self@);
            if search(self@).ok {
                lemma_search_is_sound(self@);
                lemma_search_finds_first(self@);
            }
        }
        match board.solve_all() {
            Ok(_) => {},
            Err(_) => {
                return Err(board);
            },
        }
        if board.solved() {
            return Ok(board);
        }
        let i = board.first_open();
        if i >= 81 {
            return Err(board);
        }
        let ghost stalled = board@;
        let ghost tries = ascending(stalled[i as int]);
        let guesses = board.cells[i].guesses();
        proof {
            assert(stalled[i as int].subset_of(digits()));
            lemma_ascending(stalled[i as int]);
        }
        let mut k: usize = 0;
        while k < guesses.len()
            invariant
                k <= guesses.len(),
                i < 81,
                board.cells@.len() == 81,
                well_formed(self@),
                well_formed(board@),
                search(self@).ok <==> satisfiable(self@),
                search(self@).ok ==> complete(search(self@).board),
                search(self@).ok ==> first_solution(grid_of(search(self@).board), self@),
                well_formed(search(self@).board),
                refines(search(self@).board, self@),
                stalled.len() == 81,
                guesses@.len() == tries.len(),
                forall|j: int| 0 <= j < tries.len() ==> 1 <= #[trigger] tries[j] <= 9,
                forall|j: int|
                    0 <= j < guesses@.len() ==> (#[trigger] guesses@[j])@ == set![tries[j]],
                search(self@) == branch(stalled, i as int, tries, 0),
                branch(stalled, i as int, tries, 0) == branch(board@, i as int, tries, k as int),
                rest(board@, i as int) == rest(stalled, i as int),
                rest(stalled, i as int) + 2 <= total(self@),
            decreases guesses.len() - k,
        {
            let ghost before = board@;
            let ghost d = tries[k as int];
            let guess = guesses[k];
            let mut attempt = board.clone();
            proof {
                use_type_invariant(&attempt);
            }
            attempt.cells[i] = guess;
            proof {
                assert(attempt@ =~= guessed(before, i as int, d));
                lemma_branch_step(before, i as int, tries, k as int);
            }
            match attempt.solve() {
                Ok(found) => {
                    return Ok(found);
                },
                Err(_) => {
                    let cell = board.cells[i];
                    let kept = cell.intersect(guess.complement());
                    board.cells[i] = kept;
                    proof {
                        cell.lemma_view_digits();
                        assert(kept@ =~= before[i as int].remove(d));
                        assert(board@ =~= excluded(before, i as int, d));
                    }
                },
            }
            k = k + 1;
        }
        proof {
            lemma_branch_step(board@, i as int, tries, k as int);
        }
        Err(board)
    }
}

} // verus!

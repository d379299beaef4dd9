//! The shape of the grid: 81 cells in row-major order, and the three ways
//! of cutting them into nine regions of nine cells.

use vstd::prelude::*;

verus! {

/// The three kinds of region.
#[derive(Clone, Copy, PartialEq, Eq, Debug, Structural)]
pub enum Kind {
    /// Nine cells side by side.
    Row,
    /// Nine cells one below the other.
    Column,
    /// Three by three cells.
    Square,
}

/// The index of the cell at place `k` of region `r`. Regions and places
/// count from zero; the squares, and the places in a square, run in
/// row-major order.
#[verifier::opaque]
pub open spec fn cell_at(kind: Kind, r: int, k: int) -> int {
    match kind {
        Kind::Row => r * 9 + k,
        Kind::Column => k * 9 + r,
        Kind::Square => ((r / 3) * 3 + k / 3) * 9 + (r % 3) * 3 + k % 3,
    }
}

/// The region of the kind in which cell `i` lies.
#[verifier::opaque]
pub open spec fn region_of(kind: Kind, i: int) -> int {
    match kind {
        Kind::Row => i / 9,
        Kind::Column => i % 9,
        Kind::Square => (i / 27) * 3 + (i % 9) / 3,
    }
}

/// The place of cell `i` in its region of the kind.
#[verifier::opaque]
pub open spec fn place_of(kind: Kind, i: int) -> int {
    match kind {
        Kind::Row => i % 9,
        Kind::Column => i / 9,
        Kind::Square => ((i / 9) % 3) * 3 + i % 3,
    }
}

/// The turn of cell `i` when the regions of the kind are gone through one
/// after the other, each from its first place to its last.
pub open spec fn turn_of(kind: Kind, i: int) -> int {
    region_of(kind, i) * 9 + place_of(kind, i)
}

/// The cell whose turn is `p`.
pub open spec fn cell_of_turn(kind: Kind, p: int) -> int {
    cell_at(kind, p / 9, p % 9)
}

proof fn lemma_square_of_place(r: u8, k: u8)
    by (bit_vector)
    requires
        r < 9,
        k < 9,
    ensures
        ({
            let i = ((r / 3) * 3 + k / 3) * 9 + (r % 3) * 3 + k % 3;
            &&& i < 81
            &&& (i / 27) * 3 + (i % 9) / 3 == r
            &&& ((i / 9) % 3) * 3 + i % 3 == k
        }),
{
}

proof fn lemma_place_of_square(i: u8)
    by (bit_vector)
    requires
        i < 81,
    ensures
        ({
            let r = (i / 27) * 3 + (i % 9) / 3;
            let k = ((i / 9) % 3) * 3 + i % 3;
            &&& r < 9
            &&& k < 9
            &&& ((r / 3) * 3 + k / 3) * 9 + (r % 3) * 3 + k % 3 == i
        }),
{
}

/// Region and place name a cell, and the cell gives them back.
pub proof fn lemma_cell_at(kind: Kind, r: int, k: int)
    requires
        0 <= r < 9,
        0 <= k < 9,
    ensures
        0 <= cell_at(kind, r, k) < 81,
        region_of(kind, cell_at(kind, r, k)) == r,
        place_of(kind, cell_at(kind, r, k)) == k,
        turn_of(kind, cell_at(kind, r, k)) == r * 9 + k,
{
    reveal(cell_at);
    reveal(region_of);
    reveal(place_of);
    match kind {
        Kind::Row => {},
        Kind::Column => {},
        Kind::Square => {
            lemma_square_of_place(r as u8, k as u8);
        },
    }
}

/// Every cell lies at one place of one region of each kind.
pub proof fn lemma_region_of(kind: Kind, i: int)
    requires
        0 <= i < 81,
    ensures
        0 <= region_of(kind, i) < 9,
        0 <= place_of(kind, i) < 9,
        cell_at(kind, region_of(kind, i), place_of(kind, i)) == i,
        0 <= turn_of(kind, i) < 81,
        cell_of_turn(kind, turn_of(kind, i)) == i,
{
    reveal(cell_at);
    reveal(region_of);
    reveal(place_of);
    match kind {
        Kind::Row => {},
        Kind::Column => {},
        Kind::Square => {
            lemma_place_of_square(i as u8);
        },
    }
    let (r, k) = (region_of(kind, i), place_of(kind, i));
    assert((r * 9 + k) / 9 == r && (r * 9 + k) % 9 == k);
}

/// Every turn is the turn of one cell.
pub proof fn lemma_cell_of_turn(kind: Kind, p: int)
    requires
        0 <= p < 81,
    ensures
        0 <= cell_of_turn(kind, p) < 81,
        turn_of(kind, cell_of_turn(kind, p)) == p,
        region_of(kind, cell_of_turn(kind, p)) == p / 9,
        place_of(kind, cell_of_turn(kind, p)) == p % 9,
{
    lemma_cell_at(kind, p / 9, p % 9);
}

/// The index of the cell at place `k` of region `r`.
pub fn cell_index(kind: Kind, r: usize, k: usize) -> (i: usize)
    requires
        r < 9,
        k < 9,
    ensures
        i == cell_at(kind, r as int, k as int),
        i < 81,
{
    proof {
        reveal(cell_at);
        lemma_cell_at(kind, r as int, k as int);
    }
    match kind {
        Kind::Row => r * 9 + k,
        Kind::Column => k * 9 + r,
        Kind::Square => ((r / 3) * 3 + k / 3) * 9 + (r % 3) * 3 + k % 3,
    }
}

} // verus!

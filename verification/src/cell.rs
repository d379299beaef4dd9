//! One grid position: the set of digits that may still stand there, kept
//! as a nine-bit mask.

use vstd::prelude::*;
use crate::candidates::{
    ascending, ascending_upto, below, determined, digits, lemma_below_step,
    lemma_candidates_finite, lemma_determined_is_single, lemma_empty_iff_len_zero,
};

verus! {

/// The nine bits that stand for the digits.
pub const MASK: u16 = 0x1ff;

/// Whether bit `k` of `bits` is set.
pub open spec fn bit(bits: u16, k: u16) -> bool {
    bits & (1u16 << k) != 0
}

/// The digits that a bit pattern stands for: bit `d - 1` set means that
/// digit `d` is a candidate. Bits above the ninth carry no meaning.
pub open spec fn candidates_of(bits: u16) -> Set<int> {
    Set::new(|d: int| stands_for(bits, d))
}

/// Whether `d` is a digit that `bits` stands for.
pub open spec fn stands_for(bits: u16, d: int) -> bool {
    1 <= d <= 9 && bit(bits, (d - 1) as u16)
}

proof fn lemma_bit_zero(k: u16)
    by (bit_vector)
    requires
        k < 16,
    ensures
        !bit(0u16, k),
{
}

proof fn lemma_bit_mask(k: u16)
    by (bit_vector)
    requires
        k < 9,
    ensures
        bit(0x1ffu16, k),
{
}

proof fn lemma_bit_single(j: u16, k: u16)
    by (bit_vector)
    requires
        j < 9,
        k < 9,
    ensures
        bit(1u16 << j, k) == (j == k),
        (1u16 << j) <= 0x1ff,
{
}

proof fn lemma_bit_and(a: u16, b: u16, k: u16)
    by (bit_vector)
    requires
        k < 16,
    ensures
        bit(a & b, k) == (bit(a, k) && bit(b, k)),
        (a & b) <= a,
        (a & b) <= b,
{
}

proof fn lemma_bit_not(a: u16, k: u16)
    by (bit_vector)
    requires
        k < 16,
    ensures
        bit(!a, k) == !bit(a, k),
{
}

proof fn lemma_bits_equal(a: u16, b: u16)
    by (bit_vector)
    requires
        a <= 0x1ff,
        b <= 0x1ff,
        bit(a, 0) == bit(b, 0),
        bit(a, 1) == bit(b, 1),
        bit(a, 2) == bit(b, 2),
        bit(a, 3) == bit(b, 3),
        bit(a, 4) == bit(b, 4),
        bit(a, 5) == bit(b, 5),
        bit(a, 6) == bit(b, 6),
        bit(a, 7) == bit(b, 7),
        bit(a, 8) == bit(b, 8),
    ensures
        a == b,
{
}

proof fn lemma_member(bits: u16, d: int)
    ensures
        candidates_of(bits).contains(d) == stands_for(bits, d),
{
}

/// Masks of nine bits that stand for the same digits are the same mask.
pub proof fn lemma_candidates_of_injective(a: u16, b: u16)
    requires
        a <= 0x1ff,
        b <= 0x1ff,
        candidates_of(a) == candidates_of(b),
    ensures
        a == b,
{
    assert(bit(a, 0) == bit(b, 0)) by {
        lemma_member(a, 1);
        lemma_member(b, 1);
    }
    assert(bit(a, 1) == bit(b, 1)) by {
        lemma_member(a, 2);
        lemma_member(b, 2);
    }
    assert(bit(a, 2) == bit(b, 2)) by {
        lemma_member(a, 3);
        lemma_member(b, 3);
    }
    assert(bit(a, 3) == bit(b, 3)) by {
        lemma_member(a, 4);
        lemma_member(b, 4);
    }
    assert(bit(a, 4) == bit(b, 4)) by {
        lemma_member(a, 5);
        lemma_member(b, 5);
    }
    assert(bit(a, 5) == bit(b, 5)) by {
        lemma_member(a, 6);
        lemma_member(b, 6);
    }
    assert(bit(a, 6) == bit(b, 6)) by {
        lemma_member(a, 7);
        lemma_member(b, 7);
    }
    assert(bit(a, 7) == bit(b, 7)) by {
        lemma_member(a, 8);
        lemma_member(b, 8);
    }
    assert(bit(a, 8) == bit(b, 8)) by {
        lemma_member(a, 9);
        lemma_member(b, 9);
    }
    lemma_bits_equal(a, b);
}

/// What a mask stands for is a set of digits.
pub proof fn lemma_candidates_of_digits(bits: u16)
    ensures
        candidates_of(bits).subset_of(digits()),
        candidates_of(bits).finite(),
        candidates_of(bits).len() <= 9,
{
    lemma_candidates_finite(candidates_of(bits));
}

/// The input was no board: not 81 values, or a value above nine.
#[derive(Clone, Copy, PartialEq, Eq, Debug, Structural)]
pub struct InvalidInput;

/// The candidate set of one cell.
#[derive(Clone, Copy, PartialEq, Eq, Debug, Structural)]
pub struct Cell {
    bits: u16,
}

impl View for Cell {
    type V = Set<int>;

    /// The digits that may still stand in the cell.
    closed spec fn view(&self) -> Set<int> {
        candidates_of(self.bits)
    }
}

impl Cell {
    #[verifier::type_invariant]
    spec fn inv(self) -> bool {
        self.bits <= 0x1ff
    }

    /// The view of a cell is a set of digits, whatever the cell.
    pub proof fn lemma_view_digits(self)
        ensures
            self@.subset_of(digits()),
            self@.finite(),
            self@.len() <= 9,
    {
        lemma_candidates_of_digits(self.bits);
    }

    /// Cells are equal exactly when they hold the same candidates.
    proof fn lemma_eq_view(self, other: Cell)
        requires
            self.inv(),
            other.inv(),
        ensures
            (self == other) == (self@ == other@),
    {
        if self@ == other@ {
            lemma_candidates_of_injective(self.bits, other.bits);
        }
    }

    /// The cell with no candidate left.
    pub fn none() -> (r: Cell)
        ensures
            r@ == Set::<int>::empty(),
    {
        let r = Cell { bits: 0 };
        proof {
            assert forall|d: int| !stands_for(0u16, d) by {
                if 1 <= d <= 9 {
                    lemma_bit_zero((d - 1) as u16);
                }
            }
            assert(r@ =~= Set::<int>::empty());
        }
        r
    }

    /// The cell of which nothing is known yet: every digit is a candidate.
    pub fn all() -> (r: Cell)
        ensures
            r@ == digits(),
    {
        let r = Cell { bits: MASK };
        proof {
            assert forall|d: int| 1 <= d <= 9 implies stands_for(0x1ffu16, d) by {
                lemma_bit_mask((d - 1) as u16);
            }
            assert(r@ =~= digits());
        }
        r
    }

    /// The cell whose candidates are the digits `d` with bit `d - 1` of
    /// `bits` set; higher bits are dropped.
    pub fn from_bits(bits: u16) -> (r: Cell)
        ensures
            r@ == candidates_of(bits),
    {
        proof {
            lemma_bit_and(0x1ffu16, bits, 0);
        }
        let r = Cell { bits: MASK & bits };
        proof {
            assert forall|d: int| stands_for(0x1ffu16 & bits, d) == stands_for(bits, d) by {
                if 1 <= d <= 9 {
                    lemma_bit_and(0x1ffu16, bits, (d - 1) as u16);
                    lemma_bit_mask((d - 1) as u16);
                }
            }
            assert(r@ =~= candidates_of(bits));
        }
        r
    }

    /// The mask of the cell: bit `d - 1` is set exactly for the candidates
    /// `d`, and no higher bit is set.
    pub fn bits(&self) -> (r: u16)
        ensures
            r <= 0x1ff,
            candidates_of(r) == self@,
    {
        proof {
            use_type_invariant(self);
        }
        self.bits
    }

    /// The cell for an input value: `0` is a blank, of which nothing is
    /// known; a digit is a cell decided to that digit.
    pub fn from_value(value: u8) -> (r: Cell)
        requires
            value <= 9,
        ensures
            value == 0 ==> r@ == digits(),
            value != 0 ==> r@ == set![value as int],
    {
        if value == 0 {
            Cell::all()
        } else {
            let j: u16 = (value - 1) as u16;
            proof {
                lemma_bit_single(j, 0);
            }
            let r = Cell { bits: 1u16 << j };
            proof {
                assert forall|d: int| stands_for(1u16 << j, d) == (d == value) by {
                    if 1 <= d <= 9 {
                        lemma_bit_single(j, (d - 1) as u16);
                    }
                }
                assert(r@ =~= set![value as int]);
            }
            r
        }
    }

    /// The cell for an input value, or the reason why there is none: a value
    /// above nine stands for no cell.
    pub fn try_from_value(value: u8) -> (r: Result<Cell, InvalidInput>)
        ensures
            r is Ok <==> value <= 9,
            r matches Ok(cell) ==> (value == 0 ==> cell@ == digits()) && (value != 0 ==> cell@
                == set![value as int]),
    {
        if value > 9 {
            Err(InvalidInput)
        } else {
            Ok(Cell::from_value(value))
        }
    }

    /// Whether digit `k + 1` is a candidate.
    fn has_bit(&self, k: u16) -> (r: bool)
        requires
            k < 9,
        ensures
            r == self@.contains(k + 1),
    {
        self.bits & (1u16 << k) != 0
    }

    /// Whether `digit` is a candidate.
    pub fn allows(&self, digit: u8) -> (r: bool)
        requires
            1 <= digit <= 9,
        ensures
            r == self@.contains(digit as int),
    {
        self.has_bit((digit - 1) as u16)
    }

    /// The number of candidates: `0` is a contradiction, `1` a decided cell.
    pub fn num_candidates(&self) -> (n: u32)
        ensures
            n == self@.len(),
            n <= 9,
    {
        let mut n: u32 = 0;
        let mut k: u16 = 0;
        proof {
            self.lemma_view_digits();
            assert(below(self@, 0) =~= Set::<int>::empty());
        }
        while k < 9
            invariant
                k <= 9,
                n <= k,
                below(self@, k as int).finite(),
                n == below(self@, k as int).len(),
            decreases 9 - k,
        {
            proof {
                lemma_below_step(self@, k + 1);
            }
            if self.has_bit(k) {
                n = n + 1;
            }
            k = k + 1;
        }
        proof {
            assert(below(self@, 9) =~= self@);
        }
        n
    }

    /// The digit of a decided cell; `None` for any other cell.
    pub fn value(&self) -> (r: Option<u8>)
        ensures
            r matches Some(v) ==> self@ == set![v as int],
            r is None ==> !determined(self@),
    {
        if self.num_candidates() == 1 {
            let mut k: u16 = 0;
            while k < 9
                invariant
                    k <= 9,
                    determined(self@),
                    forall|d: int| 1 <= d <= k ==> !self@.contains(d),
                decreases 9 - k,
            {
                if self.has_bit(k) {
                    proof {
                        self.lemma_view_digits();
                        lemma_determined_is_single(self@, k + 1);
                    }
                    return Some((k + 1) as u8);
                }
                k = k + 1;
            }
            proof {
                self.lemma_view_digits();
                assert(self@ =~= Set::<int>::empty());
            }
        }
        None
    }

    /// The candidates that `self` and `rhs` share.
    pub fn intersect(self, rhs: Cell) -> (r: Cell)
        ensures
            r@ == self@.intersect(rhs@),
    {
        proof {
            use_type_invariant(self);
            lemma_bit_and(self.bits, rhs.bits, 0);
        }
        let r = Cell { bits: self.bits & rhs.bits };
        proof {
            assert forall|d: int|
                stands_for(self.bits & rhs.bits, d) == (stands_for(self.bits, d) && stands_for(
                    rhs.bits,
                    d,
                )) by {
                if 1 <= d <= 9 {
                    lemma_bit_and(self.bits, rhs.bits, (d - 1) as u16);
                }
            }
            assert(r@ =~= self@.intersect(rhs@));
        }
        r
    }

    /// The digits that are no candidates of `self`.
    pub fn complement(self) -> (r: Cell)
        ensures
            r@ == digits().difference(self@),
    {
        proof {
            lemma_bit_and(0x1ffu16, !self.bits, 0);
        }
        let r = Cell { bits: MASK & !self.bits };
        proof {
            assert forall|d: int| 1 <= d <= 9 implies stands_for(0x1ffu16 & !self.bits, d)
                == !stands_for(self.bits, d) by {
                lemma_bit_and(0x1ffu16, !self.bits, (d - 1) as u16);
                lemma_bit_mask((d - 1) as u16);
                lemma_bit_not(self.bits, (d - 1) as u16);
            }
            assert(r@ =~= digits().difference(self@));
        }
        r
    }

    /// One decided cell for each candidate, in ascending order of the digits.
    pub fn guesses(&self) -> (r: Vec<Cell>)
        ensures
            r@.len() == ascending(self@).len(),
            forall|j: int| 0 <= j < r@.len() ==> (#[trigger] r@[j])@ == set![ascending(self@)[j]],
    {
        let mut out: Vec<Cell> = Vec::new();
        let mut k: u16 = 0;
        while k < 9
            invariant
                k <= 9,
                out@.len() == ascending_upto(self@, k as int).len(),
                forall|j: int|
                    0 <= j < out@.len() ==> (#[trigger] out@[j])@ == set![ascending_upto(
                        self@,
                        k as int,
                    )[j]],
            decreases 9 - k,
        {
            if self.has_bit(k) {
                let guess = Cell::from_value((k + 1) as u8);
                out.push(guess);
            }
            k = k + 1;
        }
        out
    }

    /// Takes the digit of a decided `cell` out of the digits still free in a
    /// region, which `self` holds. It is a contradiction if the digit was
    /// taken before: two decided cells of the region then hold it. A `cell`
    /// that is not decided takes nothing.
    pub fn update_candidates(&mut self, cell: Cell) -> (r: Result<(), ()>)
        ensures
            r is Err <==> determined(cell@) && !cell@.subset_of(old(self)@),
            r is Ok && determined(cell@) ==> final(self)@ == old(self)@.difference(cell@),
            r is Err || !determined(cell@) ==> final(self)@ == old(self)@,
    {
        if cell.num_candidates() == 1 {
            let taken = self.complement().intersect(cell);
            let empty = Cell::none();
            proof {
                use_type_invariant(taken);
                use_type_invariant(empty);
                taken.lemma_eq_view(empty);
                cell.lemma_view_digits();
                if cell@.subset_of(self@) {
                    assert(taken@ =~= Set::<int>::empty());
                } else {
                    let d = choose|d: int| cell@.contains(d) && !self@.contains(d);
                    assert(taken@.contains(d));
                }
            }
            if taken != empty {
                return Err(());
            }
            let kept = self.intersect(cell.complement());
            proof {
                self.lemma_view_digits();
                assert(kept@ =~= self@.difference(cell@));
            }
            *self = kept;
        }
        Ok(())
    }

    /// Takes the digits in `forbidden`, those that decided cells of a region
    /// hold, out of the candidates of `self`. A decided cell is left as it
    /// is. It is a contradiction if no candidate is left; otherwise the
    /// result says whether a candidate went.
    pub fn update_cell(&mut self, forbidden: Cell) -> (r: Result<bool, ()>)
        ensures
            determined(old(self)@) ==> final(self)@ == old(self)@,
            !determined(old(self)@) ==> final(self)@ == old(self)@.difference(forbidden@),
            r is Err <==> final(self)@ == Set::<int>::empty(),
            r matches Ok(changed) ==> changed == (final(self)@ != old(self)@),
    {
        if self.num_candidates() != 1 {
            let prev = *self;
            let kept = self.intersect(forbidden.complement());
            proof {
                self.lemma_view_digits();
                assert(kept@ =~= self@.difference(forbidden@));
            }
            *self = kept;
            let empty = Cell::none();
            proof {
                use_type_invariant(prev);
                use_type_invariant(kept);
                use_type_invariant(empty);
                kept.lemma_eq_view(empty);
                prev.lemma_eq_view(kept);
            }
            if *self == empty {
                return Err(());
            }
            Ok(prev != *self)
        } else {
            proof {
                self.lemma_view_digits();
                lemma_empty_iff_len_zero(self@);
            }
            Ok(false)
        }
    }
}

} // verus!

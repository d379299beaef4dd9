//! Reading a board from text: the decimal digits of the text are the
//! values of the cells, row by row, and every other character is passed
//! over.

use vstd::prelude::*;
use vstd::slice::slice_subrange;
use crate::board::{givens, valid_values, Board};
use crate::reduction::well_formed;

verus! {

/// The value of a decimal digit; `None` for any other character.
pub open spec fn digit_of(c: char) -> Option<u8> {
    if c == '0' {
        Some(0u8)
    } else if c == '1' {
        Some(1u8)
    } else if c == '2' {
        Some(2u8)
    } else if c == '3' {
        Some(3u8)
    } else if c == '4' {
        Some(4u8)
    } else if c == '5' {
        Some(5u8)
    } else if c == '6' {
        Some(6u8)
    } else if c == '7' {
        Some(7u8)
    } else if c == '8' {
        Some(8u8)
    } else if c == '9' {
        Some(9u8)
    } else {
        None
    }
}

/// The values of the decimal digits of a text, in the order of the text.
pub open spec fn digits_in(text: Seq<char>) -> Seq<u8>
    decreases text.len(),
{
    if text.len() == 0 {
        Seq::empty()
    } else {
        match digit_of(text.last()) {
            Some(value) => digits_in(text.drop_last()).push(value),
            None => digits_in(text.drop_last()),
        }
    }
}

/// The value of a decimal digit; `None` for any other character.
pub fn digit_value(c: char) -> (r: Option<u8>)
    ensures
        r == digit_of(c),
        r matches Some(value) ==> value <= 9,
{
    if c == '0' {
        Some(0)
    } else if c == '1' {
        Some(1)
    } else if c == '2' {
        Some(2)
    } else if c == '3' {
        Some(3)
    } else if c == '4' {
        Some(4)
    } else if c == '5' {
        Some(5)
    } else if c == '6' {
        Some(6)
    } else if c == '7' {
        Some(7)
    } else if c == '8' {
        Some(8)
    } else if c == '9' {
        Some(9)
    } else {
        None
    }
}

/// The values of the decimal digits of a text, in the order of the text.
pub fn digit_values(text: &[char]) -> (r: Vec<u8>)
    ensures
        r@ == digits_in(text@),
        forall|i: int| 0 <= i < r@.len() ==> #[trigger] r@[i] <= 9,
{
    let mut out: Vec<u8> = Vec::new();
    let mut i: usize = 0;
    while i < text.len()
        invariant
            i <= text@.len(),
            out@ == digits_in(text@.take(i as int)),
            forall|j: int| 0 <= j < out@.len() ==> #[trigger] out@[j] <= 9,
        decreases text@.len() - i,
    {
        proof {
            assert(text@.take(i + 1).drop_last() =~= text@.take(i as int));
        }
        match digit_value(text[i]) {
            Some(value) => {
                out.push(value);
            },
            None => {},
        }
        i = i + 1;
    }
    proof {
        assert(text@.take(text@.len() as int) =~= text@);
    }
    out
}

impl Board {
    /// The board that a text describes: the first 81 decimal digits of the
    /// text are the values of its cells. There is none if the text has
    /// fewer digits.
    pub fn from_text(text: &[char]) -> (r: Option<Board>)
        ensures
            r is Some <==> digits_in(text@).len() >= 81,
            r matches Some(b) ==> b@ == givens(digits_in(text@).take(81)) && well_formed(b@),
    {
        let values = digit_values(text);
        if values.len() < 81 {
            return None;
        }
        let first = slice_subrange(values.as_slice(), 0, 81);
        proof {
            assert(first@ =~= digits_in(text@).take(81));
            assert(valid_values(first@));
        }
        Some(Board::from_values(first))
    }
}

} // verus!

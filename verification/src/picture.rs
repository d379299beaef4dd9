//! Pictures of a board in text, drawn with box lines: one of the digits of
//! the decided cells, one of every candidate of every cell.
//!
//! A picture is a sequence of characters, and it is said here what the
//! character at each place is. Both pictures start with an empty line; the
//! lines after it all have the same length and end in a line feed.

use vstd::prelude::*;
use crate::board::{digit_or_blank, Board};

verus! {

/// Number of characters of the picture of the digits: an empty line and 13
/// lines of 20 characters.
pub const SOLUTION_LENGTH: usize = 261;

/// Number of characters of the picture of the candidates: an empty line
/// and 37 lines of 56 characters.
pub const CANDIDATES_LENGTH: usize = 2073;

/// The character for a digit; a blank for anything else.
pub open spec fn digit_char(d: int) -> char {
    if d == 1 {
        '1'
    } else if d == 2 {
        '2'
    } else if d == 3 {
        '3'
    } else if d == 4 {
        '4'
    } else if d == 5 {
        '5'
    } else if d == 6 {
        '6'
    } else if d == 7 {
        '7'
    } else if d == 8 {
        '8'
    } else if d == 9 {
        '9'
    } else {
        ' '
    }
}

/// The character at column `c` of line `l` of the picture of the digits.
/// Lines 0, 4, 8 and 12 are rules; the three lines after each of the
/// first three rules are rows of the board. A row shows its nine digits
/// in three groups, a blank for a cell that is not decided.
pub open spec fn solution_mark(b: Seq<Set<int>>, l: int, c: int) -> char {
    if c == 19 {
        '\n'
    } else if l % 4 == 0 {
        if c == 0 {
            if l == 0 {
                '┌'
            } else if l == 12 {
                '└'
            } else {
                '├'
            }
        } else if c == 18 {
            if l == 0 {
                '┐'
            } else if l == 12 {
                '┘'
            } else {
                '┤'
            }
        } else if c % 6 == 0 {
            if l == 0 {
                '┬'
            } else if l == 12 {
                '┴'
            } else {
                '┼'
            }
        } else {
            '─'
        }
    } else if c % 6 == 0 {
        '│'
    } else if c % 6 == 1 || c % 6 == 5 {
        ' '
    } else {
        digit_char(digit_or_blank(b[(l - 1 - l / 4) * 9 + (c / 6) * 3 + c % 6 - 2]))
    }
}

/// The character at place `p` of the picture of the digits.
pub open spec fn solution_char(b: Seq<Set<int>>, p: int) -> char {
    if p == 0 {
        '\n'
    } else {
        solution_mark(b, (p - 1) / 20, (p - 1) % 20)
    }
}

/// The picture of the digits of the decided cells.
pub open spec fn solution_picture(b: Seq<Set<int>>) -> Seq<char> {
    Seq::new(261, |p: int| solution_char(b, p))
}

/// The character at column `c` of a rule of the picture of the
/// candidates, drawn with the five characters given: the one it starts
/// with, the one of the line, the crossing between cells, the crossing
/// between squares, and the one it ends with.
pub open spec fn rule_mark(
    c: int,
    start: char,
    line: char,
    cross: char,
    wide_cross: char,
    end: char,
) -> char {
    if c == 0 {
        start
    } else if (c - 1) % 6 < 5 {
        line
    } else if (c - 1) / 6 == 8 {
        end
    } else if ((c - 1) / 6) % 3 == 2 {
        wide_cross
    } else {
        cross
    }
}

/// The character at column `c` of line `l` of the picture of the
/// candidates. Every fourth line from line 0 on is a rule, and the three
/// lines after a rule show one row of the board: each cell takes three
/// columns of them, and has digit `d` at line `(d - 1) / 3` and column
/// `(d - 1) % 3` of its own if `d` is a candidate, a blank if not.
pub open spec fn candidates_mark(b: Seq<Set<int>>, l: int, c: int) -> char {
    if c == 55 {
        '\n'
    } else if l % 4 == 0 {
        if l == 0 {
            rule_mark(c, '╔', '═', '╤', '╦', '╗')
        } else if l == 36 {
            rule_mark(c, '╚', '═', '╧', '╩', '╝')
        } else if l % 12 == 0 {
            rule_mark(c, '╠', '═', '╪', '╬', '╣')
        } else {
            rule_mark(c, '╟', '─', '┼', '╫', '╢')
        }
    } else if c == 0 {
        '║'
    } else if (c - 1) % 6 == 0 || (c - 1) % 6 == 4 {
        ' '
    } else if (c - 1) % 6 == 5 {
        if ((c - 1) / 6) % 3 == 2 {
            '║'
        } else {
            '│'
        }
    } else if b[(l / 4) * 9 + (c - 1) / 6].contains((l % 4 - 1) * 3 + (c - 1) % 6) {
        digit_char((l % 4 - 1) * 3 + (c - 1) % 6)
    } else {
        ' '
    }
}

/// The character at place `p` of the picture of the candidates.
pub open spec fn candidates_char(b: Seq<Set<int>>, p: int) -> char {
    if p == 0 {
        '\n'
    } else {
        candidates_mark(b, (p - 1) / 56, (p - 1) % 56)
    }
}

/// The picture of the candidates of every cell.
pub open spec fn candidates_picture(b: Seq<Set<int>>) -> Seq<char> {
    Seq::new(2073, |p: int| candidates_char(b, p))
}

/// The character for a digit.
fn char_of_digit(d: u8) -> (c: char)
    ensures
        c == digit_char(d as int),
{
    if d == 1 {
        '1'
    } else if d == 2 {
        '2'
    } else if d == 3 {
        '3'
    } else if d == 4 {
        '4'
    } else if d == 5 {
        '5'
    } else if d == 6 {
        '6'
    } else if d == 7 {
        '7'
    } else if d == 8 {
        '8'
    } else if d == 9 {
        '9'
    } else {
        ' '
    }
}

/// The character at column `c` of a rule drawn with the characters given.
fn char_of_rule(c: usize, start: char, line: char, cross: char, wide_cross: char, end: char) -> (r:
    char)
    requires
        c < 55,
    ensures
        r == rule_mark(c as int, start, line, cross, wide_cross, end),
{
    if c == 0 {
        start
    } else if (c - 1) % 6 < 5 {
        line
    } else if (c - 1) / 6 == 8 {
        end
    } else if ((c - 1) / 6) % 3 == 2 {
        wide_cross
    } else {
        cross
    }
}

impl Board {
    /// The character at place `p` of the picture of the digits.
    fn solution_char(&self, values: &Vec<u8>, p: usize) -> (r: char)
        requires
            p < 261,
            values@.len() == 81,
            forall|i: int| 0 <= i < 81 ==> #[trigger] values@[i] == digit_or_blank(self@[i]),
        ensures
            r == solution_char(self@, p as int),
    {
        if p == 0 {
            return '\n';
        }
        let l = (p - 1) / 20;
        let c = (p - 1) % 20;
        if c == 19 {
            '\n'
        } else if l % 4 == 0 {
            if c == 0 {
                if l == 0 {
                    '┌'
                } else if l == 12 {
                    '└'
                } else {
                    '├'
                }
            } else if c == 18 {
                if l == 0 {
                    '┐'
                } else if l == 12 {
                    '┘'
                } else {
                    '┤'
                }
            } else if c % 6 == 0 {
                if l == 0 {
                    '┬'
                } else if l == 12 {
                    '┴'
                } else {
                    '┼'
                }
            } else {
                '─'
            }
        } else if c % 6 == 0 {
            '│'
        } else if c % 6 == 1 || c % 6 == 5 {
            ' '
        } else {
            char_of_digit(values[(l - 1 - l / 4) * 9 + (c / 6) * 3 + c % 6 - 2])
        }
    }

    /// The picture of the digits of the decided cells: three by three
    /// squares of digits between thin lines, with a blank for every cell
    /// that is not decided.
    pub fn solution_picture(&self) -> (r: Vec<char>)
        ensures
            r@ == solution_picture(self@),
    {
        let values = self.values();
        let mut out: Vec<char> = Vec::new();
        let mut p: usize = 0;
        while p < 261
            invariant
                p <= 261,
                values@.len() == 81,
                forall|i: int| 0 <= i < 81 ==> #[trigger] values@[i] == digit_or_blank(self@[i]),
                out@.len() == p,
                forall|q: int| 0 <= q < p ==> #[trigger] out@[q] == solution_char(self@, q),
            decreases 261 - p,
        {
            out.push(self.solution_char(&values, p));
            p = p + 1;
        }
        assert(out@ =~= solution_picture(self@));
        out
    }

    /// The character at place `p` of the picture of the candidates.
    fn candidates_char(&self, p: usize) -> (r: char)
        requires
            p < 2073,
        ensures
            r == candidates_char(self@, p as int),
    {
        if p == 0 {
            return '\n';
        }
        let l = (p - 1) / 56;
        let c = (p - 1) % 56;
        if c == 55 {
            '\n'
        } else if l % 4 == 0 {
            if l == 0 {
                char_of_rule(c, '╔', '═', '╤', '╦', '╗')
            } else if l == 36 {
                char_of_rule(c, '╚', '═', '╧', '╩', '╝')
            } else if l % 12 == 0 {
                char_of_rule(c, '╠', '═', '╪', '╬', '╣')
            } else {
                char_of_rule(c, '╟', '─', '┼', '╫', '╢')
            }
        } else if c == 0 {
            '║'
        } else if (c - 1) % 6 == 0 || (c - 1) % 6 == 4 {
            ' '
        } else if (c - 1) % 6 == 5 {
            if ((c - 1) / 6) % 3 == 2 {
                '║'
            } else {
                '│'
            }
        } else {
            let digit = ((l % 4 - 1) * 3 + (c - 1) % 6) as u8;
            if self.cell((l / 4) * 9 + (c - 1) / 6).allows(digit) {
                char_of_digit(digit)
            } else {
                ' '
            }
        }
    }

    /// The picture of the candidates: every cell as three by three places,
    /// one for each digit, with the digit where it is a candidate and a
    /// blank where it is none; thin lines between cells, double lines
    /// between squares.
    pub fn candidates_picture(&self) -> (r: Vec<char>)
        ensures
            r@ == candidates_picture(self@),
    {
        let mut out: Vec<char> = Vec::new();
        let mut p: usize = 0;
        while p < 2073
            invariant
                p <= 2073,
                out@.len() == p,
                forall|q: int| 0 <= q < p ==> #[trigger] out@[q] == candidates_char(self@, q),
            decreases 2073 - p,
        {
            out.push(self.candidates_char(p));
            p = p + 1;
        }
        assert(out@ =~= candidates_picture(self@));
        out
    }
}

} // verus!

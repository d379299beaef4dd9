use sudoku_solver::{Board, InvalidInput, Kind};

fn holds_every_digit_once(values: &[u8], cells: [usize; 9]) -> bool {
    let mut seen = [false; 10];
    for cell in cells {
        let digit = values[cell] as usize;
        if digit < 1 || digit > 9 || seen[digit] {
            return false;
        }
        seen[digit] = true;
    }
    true
}

fn is_complete(values: &[u8]) -> bool {
    if values.len() != 81 {
        return false;
    }
    for n in 0..9 {
        let mut row = [0; 9];
        let mut column = [0; 9];
        let mut square = [0; 9];
        for k in 0..9 {
            row[k] = n * 9 + k;
            column[k] = k * 9 + n;
            square[k] = ((n / 3) * 3 + k / 3) * 9 + (n % 3) * 3 + k % 3;
        }
        if !holds_every_digit_once(values, row)
            || !holds_every_digit_once(values, column)
            || !holds_every_digit_once(values, square)
        {
            return false;
        }
    }
    true
}

fn keeps_the_givens(values: &[u8], givens: &[u8]) -> bool {
    givens.iter().zip(values).all(|(given, value)| *given == 0 || given == value)
}

const SIMPLE: [u8; 81] = [
    0, 8, 7, 0, 1, 0, 0, 0, 0,
    0, 0, 4, 8, 0, 0, 1, 2, 0,
    0, 0, 1, 7, 0, 5, 6, 0, 9,
    8, 1, 0, 0, 0, 0, 2, 0, 0,
    0, 6, 0, 0, 0, 0, 0, 5, 0,
    0, 0, 9, 0, 0, 0, 0, 6, 4,
    5, 0, 6, 1, 0, 7, 9, 0, 0,
    0, 3, 2, 0, 0, 9, 5, 0, 0,
    0, 0, 0, 0, 6, 0, 4, 7, 0,
];

const SIMPLE_SOLVED: [u8; 81] = [
    6, 8, 7, 9, 1, 2, 3, 4, 5,
    9, 5, 4, 8, 3, 6, 1, 2, 7,
    3, 2, 1, 7, 4, 5, 6, 8, 9,
    8, 1, 5, 6, 7, 4, 2, 9, 3,
    4, 6, 3, 2, 9, 8, 7, 5, 1,
    2, 7, 9, 3, 5, 1, 8, 6, 4,
    5, 4, 6, 1, 2, 7, 9, 3, 8,
    7, 3, 2, 4, 8, 9, 5, 1, 6,
    1, 9, 8, 5, 6, 3, 4, 7, 2,
];

const EASY: [u8; 81] = [
    1, 0, 4, 0, 0, 0, 3, 0, 6,
    8, 0, 9, 0, 3, 0, 5, 7, 0,
    0, 0, 0, 0, 7, 0, 1, 0, 0,
    4, 2, 6, 0, 0, 0, 0, 0, 3,
    0, 8, 7, 0, 0, 6, 0, 1, 2,
    3, 0, 0, 0, 0, 0, 0, 0, 9,
    2, 4, 1, 9, 0, 0, 0, 3, 0,
    0, 0, 0, 2, 0, 0, 0, 8, 0,
    7, 0, 0, 5, 0, 3, 0, 0, 0,
];

const EASY_SOLVED: [u8; 81] = [
    1, 7, 4, 8, 9, 5, 3, 2, 6,
    8, 6, 9, 1, 3, 2, 5, 7, 4,
    5, 3, 2, 6, 7, 4, 1, 9, 8,
    4, 2, 6, 7, 1, 9, 8, 5, 3,
    9, 8, 7, 3, 5, 6, 4, 1, 2,
    3, 1, 5, 4, 2, 8, 7, 6, 9,
    2, 4, 1, 9, 8, 7, 6, 3, 5,
    6, 5, 3, 2, 4, 1, 9, 8, 7,
    7, 9, 8, 5, 6, 3, 2, 4, 1,
];

const HARD: [u8; 81] = [
    2, 9, 0, 1, 0, 0, 0, 0, 5,
    0, 7, 0, 0, 5, 0, 0, 0, 0,
    0, 8, 0, 0, 0, 0, 6, 0, 0,
    4, 0, 0, 0, 3, 2, 0, 0, 0,
    0, 0, 5, 8, 0, 7, 2, 0, 0,
    0, 0, 0, 9, 6, 0, 0, 0, 1,
    0, 0, 9, 0, 0, 0, 0, 1, 0,
    0, 0, 0, 0, 2, 0, 0, 5, 0,
    6, 0, 0, 0, 0, 1, 0, 7, 2,
];

const HARD_SOLVED: [u8; 81] = [
    2, 9, 6, 1, 8, 3, 7, 4, 5,
    3, 7, 4, 2, 5, 6, 1, 9, 8,
    5, 8, 1, 7, 4, 9, 6, 2, 3,
    4, 1, 8, 5, 3, 2, 9, 6, 7,
    9, 6, 5, 8, 1, 7, 2, 3, 4,
    7, 3, 2, 9, 6, 4, 5, 8, 1,
    8, 2, 9, 3, 7, 5, 4, 1, 6,
    1, 4, 7, 6, 2, 8, 3, 5, 9,
    6, 5, 3, 4, 9, 1, 8, 7, 2,
];

const HARD2: [u8; 81] = [
    8, 0, 0, 5, 9, 0, 3, 0, 1,
    0, 2, 0, 7, 0, 0, 8, 0, 0,
    0, 0, 0, 8, 0, 0, 0, 0, 2,
    0, 0, 8, 0, 0, 0, 0, 1, 0,
    0, 0, 0, 3, 0, 5, 0, 0, 0,
    0, 4, 0, 0, 0, 0, 5, 0, 0,
    1, 0, 0, 0, 0, 3, 0, 0, 0,
    0, 0, 7, 0, 0, 4, 0, 8, 0,
    5, 0, 9, 0, 7, 8, 0, 0, 6,
];

const HARD2_SOLVED: [u8; 81] = [
    8, 7, 6, 5, 9, 2, 3, 4, 1,
    9, 2, 3, 7, 4, 1, 8, 6, 5,
    4, 1, 5, 8, 3, 6, 7, 9, 2,
    3, 5, 8, 4, 2, 7, 6, 1, 9,
    6, 9, 1, 3, 8, 5, 2, 7, 4,
    7, 4, 2, 6, 1, 9, 5, 3, 8,
    1, 8, 4, 2, 6, 3, 9, 5, 7,
    2, 6, 7, 9, 5, 4, 1, 8, 3,
    5, 3, 9, 1, 7, 8, 4, 2, 6,
];

const EVIL: [u8; 81] = [
    0, 9, 0, 0, 0, 0, 7, 0, 0,
    0, 0, 0, 0, 1, 0, 0, 0, 8,
    0, 2, 0, 6, 0, 9, 0, 0, 0,
    5, 0, 0, 0, 6, 0, 3, 2, 0,
    3, 0, 0, 9, 0, 2, 0, 0, 5,
    0, 6, 2, 0, 3, 0, 0, 0, 4,
    0, 0, 0, 3, 0, 7, 0, 5, 0,
    9, 0, 0, 0, 4, 0, 0, 0, 0,
    0, 0, 6, 0, 0, 0, 0, 4, 0,
];

const EVIL_SOLVED: [u8; 81] = [
    4, 9, 1, 8, 5, 3, 7, 6, 2,
    6, 7, 3, 2, 1, 4, 5, 9, 8,
    8, 2, 5, 6, 7, 9, 4, 3, 1,
    5, 8, 9, 4, 6, 1, 3, 2, 7,
    3, 4, 7, 9, 8, 2, 6, 1, 5,
    1, 6, 2, 7, 3, 5, 9, 8, 4,
    2, 1, 4, 3, 9, 7, 8, 5, 6,
    9, 5, 8, 1, 4, 6, 2, 7, 3,
    7, 3, 6, 5, 2, 8, 1, 4, 9,
];

const EVIL2: [u8; 81] = [
    2, 0, 0, 0, 8, 5, 0, 9, 1,
    0, 0, 0, 2, 0, 0, 0, 7, 0,
    0, 0, 6, 0, 0, 0, 0, 0, 5,
    6, 0, 0, 0, 0, 9, 0, 0, 0,
    0, 9, 3, 0, 0, 0, 1, 4, 0,
    0, 0, 0, 4, 0, 0, 0, 0, 2,
    4, 0, 0, 0, 0, 0, 8, 0, 0,
    0, 1, 0, 0, 0, 8, 0, 0, 0,
    8, 2, 0, 3, 1, 0, 0, 0, 4,
];

const EVIL2_SOLVED: [u8; 81] = [
    2, 7, 4, 6, 8, 5, 3, 9, 1,
    9, 5, 8, 2, 3, 1, 4, 7, 6,
    1, 3, 6, 7, 9, 4, 2, 8, 5,
    6, 4, 2, 1, 7, 9, 5, 3, 8,
    5, 9, 3, 8, 6, 2, 1, 4, 7,
    7, 8, 1, 4, 5, 3, 9, 6, 2,
    4, 6, 5, 9, 2, 7, 8, 1, 3,
    3, 1, 7, 5, 4, 8, 6, 2, 9,
    8, 2, 9, 3, 1, 6, 7, 5, 4,
];

const ERICA: [u8; 81] = [
    9, 0, 3, 0, 2, 0, 0, 7, 0,
    0, 6, 0, 0, 0, 0, 0, 2, 0,
    7, 0, 0, 0, 0, 9, 3, 0, 0,
    0, 9, 5, 0, 0, 8, 0, 4, 0,
    0, 0, 6, 0, 0, 0, 9, 0, 0,
    0, 1, 0, 9, 0, 0, 6, 3, 0,
    0, 0, 4, 3, 0, 0, 0, 0, 7,
    0, 8, 0, 0, 0, 0, 0, 6, 0,
    0, 7, 0, 0, 1, 0, 2, 0, 8,
];

const ERICA_SOLVED: [u8; 81] = [
    9, 4, 3, 5, 2, 1, 8, 7, 6,
    1, 6, 8, 7, 4, 3, 5, 2, 9,
    7, 5, 2, 8, 6, 9, 3, 1, 4,
    2, 9, 5, 6, 3, 8, 7, 4, 1,
    4, 3, 6, 1, 7, 2, 9, 8, 5,
    8, 1, 7, 9, 5, 4, 6, 3, 2,
    6, 2, 4, 3, 8, 5, 1, 9, 7,
    5, 8, 1, 2, 9, 7, 4, 6, 3,
    3, 7, 9, 4, 1, 6, 2, 5, 8,
];

const TEST: [u8; 81] = [
    9, 0, 3, 0, 2, 0, 0, 7, 0,
    1, 6, 0, 0, 0, 0, 0, 2, 0,
    7, 0, 0, 0, 0, 9, 3, 0, 0,
    0, 9, 5, 0, 0, 8, 0, 4, 0,
    0, 0, 6, 0, 0, 0, 9, 0, 0,
    0, 1, 0, 9, 0, 0, 6, 3, 0,
    0, 0, 4, 3, 0, 0, 0, 0, 7,
    0, 8, 0, 0, 0, 0, 0, 6, 0,
    0, 7, 0, 0, 1, 0, 2, 0, 8,
];

const TEST_SOLVED: [u8; 81] = [
    9, 4, 3, 5, 2, 1, 8, 7, 6,
    1, 6, 8, 7, 4, 3, 5, 2, 9,
    7, 5, 2, 8, 6, 9, 3, 1, 4,
    2, 9, 5, 6, 3, 8, 7, 4, 1,
    4, 3, 6, 1, 7, 2, 9, 8, 5,
    8, 1, 7, 9, 5, 4, 6, 3, 2,
    6, 2, 4, 3, 8, 5, 1, 9, 7,
    5, 8, 1, 2, 9, 7, 4, 6, 3,
    3, 7, 9, 4, 1, 6, 2, 5, 8,
];

const FIRST_GRID: [u8; 81] = [
    1, 2, 3, 4, 5, 6, 7, 8, 9,
    4, 5, 6, 7, 8, 9, 1, 2, 3,
    7, 8, 9, 1, 2, 3, 4, 5, 6,
    2, 1, 4, 3, 6, 5, 8, 9, 7,
    3, 6, 5, 8, 9, 7, 2, 1, 4,
    8, 9, 7, 2, 1, 4, 3, 6, 5,
    5, 3, 1, 6, 4, 2, 9, 7, 8,
    6, 4, 2, 9, 7, 8, 5, 3, 1,
    9, 7, 8, 5, 3, 1, 6, 4, 2,
];

const DEAD_END: [u8; 81] = [
    2, 9, 3, 1, 0, 0, 0, 0, 5,
    0, 7, 0, 0, 5, 0, 0, 0, 0,
    0, 8, 0, 0, 0, 0, 6, 0, 0,
    4, 0, 0, 0, 3, 2, 0, 0, 0,
    0, 0, 5, 8, 0, 7, 2, 0, 0,
    0, 0, 0, 9, 6, 0, 0, 0, 1,
    0, 0, 9, 0, 0, 0, 0, 1, 0,
    0, 0, 0, 0, 2, 0, 0, 5, 0,
    6, 0, 0, 0, 0, 1, 0, 7, 2,
];

const DEAD_END_LEFT: [u16; 81] = [
    0b000000010, 0b100000000, 0b000000100, 0b000000001, 0b000000000, 0b010100000, 0b011001000, 0b010001000, 0b000010000,
    0b000000001, 0b001000000, 0b000100000, 0b000001110, 0b000010000, 0b110000100, 0b110001100, 0b110001110, 0b110001100,
    0b000010000, 0b010000000, 0b000001000, 0b001000110, 0b101000000, 0b100000100, 0b000100000, 0b100000110, 0b101000100,
    0b000001000, 0b000100001, 0b001000001, 0b000010000, 0b000000100, 0b000000010, 0b111000000, 0b110100000, 0b111100000,
    0b100000100, 0b000100100, 0b000010000, 0b010000000, 0b000000001, 0b001000000, 0b000000010, 0b100101100, 0b100101100,
    0b011000100, 0b000000110, 0b001000010, 0b100000000, 0b000100000, 0b000001000, 0b011010100, 0b010000100, 0b000000001,
    0b001000100, 0b000011110, 0b100000000, 0b001101100, 0b011001000, 0b010110100, 0b010001100, 0b000000001, 0b010101100,
    0b001000100, 0b000001101, 0b001000001, 0b001101100, 0b000000010, 0b110100100, 0b110001100, 0b000010000, 0b110101100,
    0b000100000, 0b000011100, 0b010000000, 0b000001100, 0b100001000, 0b000000001, 0b100001100, 0b001000000, 0b000000010,
];

const DEAD_END_STALLED: [u16; 81] = [
    0b000000010, 0b100000000, 0b000000100, 0b000000001, 0b011001000, 0b010100000, 0b011001000, 0b010001000, 0b000010000,
    0b000000001, 0b001000000, 0b000100000, 0b000001110, 0b000010000, 0b110000100, 0b110001100, 0b110001110, 0b110001100,
    0b000010000, 0b010000000, 0b000001000, 0b001000110, 0b101000000, 0b100000100, 0b000100000, 0b100000110, 0b101000100,
    0b000001000, 0b000100001, 0b001000001, 0b000010000, 0b000000100, 0b000000010, 0b111000000, 0b110100000, 0b111100000,
    0b100000100, 0b000100100, 0b000010000, 0b010000000, 0b000000001, 0b001000000, 0b000000010, 0b100101100, 0b100101100,
    0b011000100, 0b000000110, 0b001000010, 0b100000000, 0b000100000, 0b000001000, 0b011010100, 0b010000100, 0b000000001,
    0b001000100, 0b000011110, 0b100000000, 0b001101100, 0b011001000, 0b010110100, 0b010001100, 0b000000001, 0b010101100,
    0b001000100, 0b000001101, 0b001000001, 0b001101100, 0b000000010, 0b110100100, 0b110001100, 0b000010000, 0b110101100,
    0b000100000, 0b000011100, 0b010000000, 0b000001100, 0b100001000, 0b000000001, 0b100001100, 0b001000000, 0b000000010,
];

const DEAD_END_FIRST_OPEN: usize = 4;

const HARD_STALLED: [u16; 81] = [
    0b000000010, 0b100000000, 0b000101100, 0b000000001, 0b011001000, 0b010100100, 0b011001100, 0b010001100, 0b000010000,
    0b000000101, 0b001000000, 0b000101101, 0b000101110, 0b000010000, 0b110100100, 0b110001101, 0b110001110, 0b110001100,
    0b000010101, 0b010000000, 0b000001101, 0b001001110, 0b101001000, 0b100000100, 0b000100000, 0b100001110, 0b101001100,
    0b000001000, 0b000100001, 0b011100001, 0b000010000, 0b000000100, 0b000000010, 0b111000000, 0b110100000, 0b111100000,
    0b100000100, 0b000100100, 0b000010000, 0b010000000, 0b000000001, 0b001000000, 0b000000010, 0b100101100, 0b100101100,
    0b011000100, 0b000000110, 0b011000110, 0b100000000, 0b000100000, 0b000001000, 0b011010100, 0b010000100, 0b000000001,
    0b011010100, 0b000011110, 0b100000000, 0b001101100, 0b011001000, 0b010110100, 0b010001100, 0b000000001, 0b010101100,
    0b011000101, 0b000001101, 0b011001101, 0b001101100, 0b000000010, 0b110100100, 0b110001100, 0b000010000, 0b110101100,
    0b000100000, 0b000011100, 0b010001100, 0b000001100, 0b110001000, 0b000000001, 0b110001100, 0b001000000, 0b000000010,
];

const HARD_FIRST_OPEN: usize = 2;

const HARD_AFTER_ROWS: [u16; 81] = [
    0b000000010, 0b100000000, 0b011101100, 0b000000001, 0b011101100, 0b011101100, 0b011101100, 0b011101100, 0b000010000,
    0b110101111, 0b001000000, 0b110101111, 0b110101111, 0b000010000, 0b110101111, 0b110101111, 0b110101111, 0b110101111,
    0b101011111, 0b010000000, 0b101011111, 0b101011111, 0b101011111, 0b101011111, 0b000100000, 0b101011111, 0b101011111,
    0b000001000, 0b111110001, 0b111110001, 0b111110001, 0b000000100, 0b000000010, 0b111110001, 0b111110001, 0b111110001,
    0b100101101, 0b100101101, 0b000010000, 0b010000000, 0b100101101, 0b001000000, 0b000000010, 0b100101101, 0b100101101,
    0b011011110, 0b011011110, 0b011011110, 0b100000000, 0b000100000, 0b011011110, 0b011011110, 0b011011110, 0b000000001,
    0b011111110, 0b011111110, 0b100000000, 0b011111110, 0b011111110, 0b011111110, 0b011111110, 0b000000001, 0b011111110,
    0b111101101, 0b111101101, 0b111101101, 0b111101101, 0b000000010, 0b111101101, 0b111101101, 0b000010000, 0b111101101,
    0b000100000, 0b110011100, 0b110011100, 0b110011100, 0b110011100, 0b000000001, 0b110011100, 0b001000000, 0b000000010,
];

const HARD_AFTER_COLUMNS: [u16; 81] = [
    0b000000010, 0b100000000, 0b011101100, 0b000000001, 0b011001000, 0b010101100, 0b011001100, 0b010101100, 0b000010000,
    0b110000101, 0b001000000, 0b010101111, 0b000101110, 0b000010000, 0b110101100, 0b110001101, 0b110101110, 0b110101100,
    0b101010101, 0b010000000, 0b001001111, 0b001011110, 0b101001001, 0b100011100, 0b000100000, 0b100001110, 0b101001100,
    0b000001000, 0b000110001, 0b011100001, 0b001110000, 0b000000100, 0b000000010, 0b111010001, 0b110100000, 0b111100000,
    0b100000101, 0b000101101, 0b000010000, 0b010000000, 0b100001001, 0b001000000, 0b000000010, 0b100101100, 0b100101100,
    0b011010100, 0b000011110, 0b011001110, 0b100000000, 0b000100000, 0b010011100, 0b011011100, 0b010001110, 0b000000001,
    0b011010100, 0b000111110, 0b100000000, 0b001111110, 0b011001000, 0b010111100, 0b011011100, 0b000000001, 0b011101100,
    0b111000101, 0b000101101, 0b011101101, 0b001101100, 0b000000010, 0b110101100, 0b111001101, 0b000010000, 0b111101100,
    0b000100000, 0b000011100, 0b010001100, 0b000011100, 0b110001000, 0b000000001, 0b110011100, 0b001000000, 0b000000010,
];

const HARD_AFTER_SQUARES: [u16; 81] = [
    0b000000010, 0b100000000, 0b000101100, 0b000000001, 0b011001000, 0b010101100, 0b011001100, 0b010001100, 0b000010000,
    0b000000101, 0b001000000, 0b000101101, 0b000101110, 0b000010000, 0b110101100, 0b110001101, 0b110001110, 0b110001100,
    0b000010101, 0b010000000, 0b000001101, 0b001001110, 0b101001000, 0b100001100, 0b000100000, 0b100001110, 0b101001100,
    0b000001000, 0b000100001, 0b011100001, 0b000010000, 0b000000100, 0b000000010, 0b111010000, 0b110100000, 0b111100000,
    0b100000101, 0b000100101, 0b000010000, 0b010000000, 0b000001001, 0b001000000, 0b000000010, 0b100101100, 0b100101100,
    0b011000100, 0b000000110, 0b011000110, 0b100000000, 0b000100000, 0b000011000, 0b011011100, 0b010001100, 0b000000001,
    0b011010100, 0b000011110, 0b100000000, 0b001111100, 0b011001000, 0b010111100, 0b010001100, 0b000000001, 0b010101100,
    0b011000101, 0b000001101, 0b011001101, 0b001101100, 0b000000010, 0b110101100, 0b110001100, 0b000010000, 0b110101100,
    0b000100000, 0b000011100, 0b010001100, 0b000011100, 0b110001000, 0b000000001, 0b110001100, 0b001000000, 0b000000010,
];

fn blank_with(givens: &[(usize, u8)]) -> [u8; 81] {
    let mut values = [0; 81];
    for (cell, digit) in givens {
        values[*cell] = *digit;
    }
    values
}

#[test]
fn from_values_reads_blanks_and_digits() {
    let board = Board::from_values(&blank_with(&[(0, 1), (40, 5), (80, 9)]));
    let bits = board.bits();
    assert_eq!(bits.len(), 81);
    for (cell, mask) in bits.iter().enumerate() {
        let expected = match cell {
            0 => 0b0_0000_0001,
            40 => 0b0_0001_0000,
            80 => 0b1_0000_0000,
            _ => 0b1_1111_1111,
        };
        assert_eq!(*mask, expected);
    }
}

#[test]
fn from_bits_and_bits_agree() {
    let board = Board::from_bits(&HARD_STALLED);
    assert_eq!(board.bits(), HARD_STALLED.to_vec());
    let mut noisy = HARD_STALLED;
    for mask in noisy.iter_mut() {
        *mask |= 0xfe00;
    }
    assert_eq!(Board::from_bits(&noisy), board);
}

#[test]
fn values_are_the_digits_of_the_decided_cells() {
    assert_eq!(Board::from_values(&HARD).values(), HARD.to_vec());
    let mut masks = [0b1_1111_1111u16; 81];
    masks[0] = 0;
    masks[1] = 0b0_0000_0110;
    masks[2] = 0b0_0100_0000;
    let values = Board::from_bits(&masks).values();
    assert_eq!(values[0], 0);
    assert_eq!(values[1], 0);
    assert_eq!(values[2], 7);
    assert!(values[3..].iter().all(|value| *value == 0));
}

#[test]
fn try_from_values_takes_what_from_values_takes() {
    assert_eq!(Board::try_from_values(&HARD), Ok(Board::from_values(&HARD)));
    assert_eq!(Board::try_from_values(&[0; 81]), Ok(Board::from_values(&[0; 81])));
    assert_eq!(Board::try_from_values(&[9; 81]), Ok(Board::from_values(&[9; 81])));
}

#[test]
fn try_from_values_refuses_a_wrong_count() {
    assert_eq!(Board::try_from_values(&[]), Err(InvalidInput));
    assert_eq!(Board::try_from_values(&[0; 80]), Err(InvalidInput));
    assert_eq!(Board::try_from_values(&[0; 82]), Err(InvalidInput));
}

#[test]
fn try_from_values_refuses_a_value_above_nine() {
    assert_eq!(Board::try_from_values(&blank_with(&[(0, 10)])), Err(InvalidInput));
    assert_eq!(Board::try_from_values(&blank_with(&[(80, 10)])), Err(InvalidInput));
    assert_eq!(Board::try_from_values(&blank_with(&[(17, 255)])), Err(InvalidInput));
}

#[test]
fn clone_is_a_board_of_its_own() {
    let board = Board::from_values(&HARD);
    let mut copy = board.clone();
    assert_eq!(copy, board);
    assert_eq!(copy.solve_rows(), Ok(true));
    assert_ne!(copy, board);
    assert_eq!(board, Board::from_values(&HARD));
}

#[test]
fn each_pass_prunes_its_regions() {
    let mut board = Board::from_values(&HARD);
    assert_eq!(board.solve_rows(), Ok(true));
    assert_eq!(board, Board::from_bits(&HARD_AFTER_ROWS));
    assert_eq!(board.solve_columns(), Ok(true));
    assert_eq!(board, Board::from_bits(&HARD_AFTER_COLUMNS));
    assert_eq!(board.solve_squares(), Ok(true));
    assert_eq!(board, Board::from_bits(&HARD_AFTER_SQUARES));
}

#[test]
fn reduce_is_the_pass_of_its_kind() {
    let mut by_kind = Board::from_values(&HARD);
    let mut by_name = Board::from_values(&HARD);
    assert_eq!(by_kind.reduce(Kind::Row), by_name.solve_rows());
    assert_eq!(by_kind, by_name);
    assert_eq!(by_kind.reduce(Kind::Column), by_name.solve_columns());
    assert_eq!(by_kind, by_name);
    assert_eq!(by_kind.reduce(Kind::Square), by_name.solve_squares());
    assert_eq!(by_kind, by_name);
}

#[test]
fn a_pass_that_changed_nothing_changes_nothing_again() {
    for kind in [Kind::Row, Kind::Column, Kind::Square] {
        for values in [HARD, EVIL, SIMPLE_SOLVED, [0; 81]] {
            let mut board = Board::from_values(&values);
            while board.reduce(kind) != Ok(false) {}
            let settled = board.clone();
            assert_eq!(board.reduce(kind), Ok(false));
            assert_eq!(board, settled);
            assert_eq!(board.reduce(kind), Ok(false));
            assert_eq!(board, settled);
        }
    }
}

#[test]
fn a_pass_stops_where_a_cell_is_left_without_a_candidate() {
    let mut masks = [0b1_1111_1111u16; 81];
    masks[0] = 0b0_0001_0000;
    masks[9] = 0b0_0000_0001;
    masks[10] = 0b0_0000_0010;
    masks[11] = 0b0_0000_0011;
    let mut board = Board::from_bits(&masks);
    assert_eq!(board.solve_rows(), Err(()));

    let mut left = masks;
    for cell in 1..9 {
        left[cell] = 0b1_1110_1111;
    }
    left[11] = 0;
    assert_eq!(board.bits(), left.to_vec());
}

#[test]
fn a_pass_stops_at_a_clash_before_it_prunes_the_region() {
    let values = blank_with(&[(0, 5), (1, 3), (46, 3)]);
    let mut board = Board::from_values(&values);
    assert_eq!(board.solve_columns(), Err(()));

    let mut left = Board::from_values(&values).bits();
    for row in 1..9 {
        left[row * 9] = 0b1_1110_1111;
    }
    assert_eq!(board.bits(), left);
}

#[test]
fn a_pass_over_a_board_with_an_empty_cell_fails() {
    let mut masks = [0b1_1111_1111u16; 81];
    masks[80] = 0;
    assert_eq!(Board::from_bits(&masks).solve_rows(), Err(()));
    assert_eq!(Board::from_bits(&masks).solve_columns(), Err(()));
    assert_eq!(Board::from_bits(&masks).solve_squares(), Err(()));
    assert!(Board::from_bits(&masks).solve().is_err());
}

#[test]
fn solve_all_stalls_at_the_fixpoint() {
    let mut board = Board::from_values(&HARD);
    assert_eq!(board.solve_all(), Ok(()));
    assert_eq!(board, Board::from_bits(&HARD_STALLED));
    assert!(!board.solved());
    assert_eq!(board.first_open(), HARD_FIRST_OPEN);

    assert_eq!(board.solve_rows(), Ok(false));
    assert_eq!(board.solve_columns(), Ok(false));
    assert_eq!(board.solve_squares(), Ok(false));
    assert_eq!(board.solve_all(), Ok(()));
    assert_eq!(board, Board::from_bits(&HARD_STALLED));
}

#[test]
fn solve_all_reports_a_contradiction() {
    let mut board = Board::from_values(&blank_with(&[(0, 4), (8, 4)]));
    assert_eq!(board.solve_all(), Err(()));
    let mut board = Board::from_values(&blank_with(&[(0, 4), (72, 4)]));
    assert_eq!(board.solve_all(), Err(()));
    let mut board = Board::from_values(&blank_with(&[(0, 4), (20, 4)]));
    assert_eq!(board.solve_all(), Err(()));
}

#[test]
fn propagation_alone_solves_a_simple_board() {
    for (values, solved) in [(SIMPLE, SIMPLE_SOLVED), (EASY, EASY_SOLVED)] {
        let mut board = Board::from_values(&values);
        assert!(!board.solved());
        assert_eq!(board.solve_all(), Ok(()));
        assert!(board.solved());
        assert_eq!(board.first_open(), 81);
        assert_eq!(board.values(), solved.to_vec());
    }
}

#[test]
fn first_open_is_the_first_cell_with_two_candidates() {
    assert_eq!(Board::from_values(&[0; 81]).first_open(), 0);
    assert_eq!(Board::from_values(&HARD).first_open(), 2);
    assert_eq!(Board::from_values(&SIMPLE_SOLVED).first_open(), 81);
    let mut masks = [0b0_0000_0001u16; 81];
    masks[3] = 0;
    masks[7] = 0b0_0011_0000;
    assert_eq!(Board::from_bits(&masks).first_open(), 7);
}

#[test]
fn solved_asks_for_one_candidate_in_every_cell() {
    assert!(Board::from_values(&SIMPLE_SOLVED).solved());
    assert!(Board::from_values(&[1; 81]).solved());
    assert!(!Board::from_values(&SIMPLE).solved());
    let mut masks = [0b0_0000_0001u16; 81];
    masks[80] = 0;
    assert!(!Board::from_bits(&masks).solved());
}

#[test]
fn solve_finds_the_one_solution() {
    let puzzles = [
        (SIMPLE, SIMPLE_SOLVED),
        (EASY, EASY_SOLVED),
        (HARD, HARD_SOLVED),
        (HARD2, HARD2_SOLVED),
        (EVIL, EVIL_SOLVED),
        (EVIL2, EVIL2_SOLVED),
        (ERICA, ERICA_SOLVED),
        (TEST, TEST_SOLVED),
    ];
    for (values, solved) in puzzles {
        let found = Board::from_values(&values).solve().unwrap();
        assert_eq!(found, Board::from_values(&solved));
        assert_eq!(found.values(), solved.to_vec());
    }
}

#[test]
fn what_solve_returns_is_complete() {
    for values in [SIMPLE, EASY, HARD, HARD2, EVIL, EVIL2, ERICA, TEST, [0; 81]] {
        let found = Board::from_values(&values).solve().unwrap();
        assert!(found.solved());
        assert!(is_complete(&found.values()));
        assert!(keeps_the_givens(&found.values(), &values));
    }
}

#[test]
fn solve_fills_the_empty_board_with_the_first_grid() {
    let found = Board::from_values(&[0; 81]).solve().unwrap();
    assert_eq!(found.values(), FIRST_GRID.to_vec());
    assert!(is_complete(&FIRST_GRID));
}

#[test]
fn solve_returns_a_solved_board_as_it_is() {
    for solved in [SIMPLE_SOLVED, EVIL_SOLVED, FIRST_GRID] {
        let board = Board::from_values(&solved);
        assert_eq!(board.clone().solve(), Ok(board));
    }
}

#[test]
fn solve_gives_the_same_output_every_time() {
    for values in [EVIL, [0; 81], DEAD_END, [1; 81]] {
        let first = Board::from_values(&values).solve();
        let second = Board::from_values(&values).solve();
        assert_eq!(first, second);
        let bits = |outcome: &Result<Board, Board>| match outcome {
            Ok(board) => board.bits(),
            Err(board) => board.bits(),
        };
        assert_eq!(bits(&first), bits(&second));
    }
}

#[test]
fn solve_fails_on_a_digit_twice_in_a_row() {
    let board = Board::from_values(&blank_with(&[(27, 6), (35, 6)]));
    assert_eq!(board.clone().solve(), Err(board));
}

#[test]
fn solve_fails_on_a_digit_twice_in_a_column() {
    let values = blank_with(&[(5, 2), (77, 2)]);
    let outcome = Board::from_values(&values).solve();
    assert!(outcome.is_err());
    let left = outcome.unwrap_err().values();
    assert_eq!(left[5], 2);
    assert_eq!(left[77], 2);
}

#[test]
fn solve_fails_on_a_digit_twice_in_a_square() {
    let values = blank_with(&[(30, 8), (50, 8)]);
    let outcome = Board::from_values(&values).solve();
    assert!(outcome.is_err());
    let left = outcome.unwrap_err().values();
    assert_eq!(left[30], 8);
    assert_eq!(left[50], 8);
}

#[test]
fn solve_fails_where_every_guess_fails() {
    let mut stalled = Board::from_values(&DEAD_END);
    assert_eq!(stalled.solve_all(), Ok(()));
    assert_eq!(stalled, Board::from_bits(&DEAD_END_STALLED));
    assert_eq!(stalled.first_open(), DEAD_END_FIRST_OPEN);

    let left = Board::from_values(&DEAD_END).solve().unwrap_err();
    assert_eq!(left, Board::from_bits(&DEAD_END_LEFT));
    let mut expected = DEAD_END_STALLED;
    expected[DEAD_END_FIRST_OPEN] = 0;
    assert_eq!(left.bits(), expected.to_vec());
}

fn next_random(state: &mut u64) -> u64 {
    *state = state.wrapping_mul(6364136223846793005).wrapping_add(1442695040888963407);
    *state >> 33
}

fn with_blanks(solved: &[u8; 81], blanks: usize, state: &mut u64) -> [u8; 81] {
    let mut values = *solved;
    let mut left = blanks;
    while left > 0 {
        let cell = (next_random(state) % 81) as usize;
        if values[cell] != 0 {
            values[cell] = 0;
            left -= 1;
        }
    }
    values
}

#[test]
fn solve_finds_a_solution_where_there_is_one() {
    let mut state = 2024;
    for solved in [SIMPLE_SOLVED, HARD_SOLVED, EVIL_SOLVED, FIRST_GRID] {
        for blanks in [1, 20, 40, 50, 55, 60, 70] {
            for _ in 0..4 {
                let values = with_blanks(&solved, blanks, &mut state);
                let found = Board::from_values(&values).solve().unwrap().values();
                assert!(is_complete(&found));
                assert!(keeps_the_givens(&found, &values));
                assert!(found <= solved.to_vec());
            }
        }
    }
}

#[test]
fn solve_fails_where_a_given_contradicts_the_rest() {
    let mut state = 7;
    for solved in [SIMPLE_SOLVED, HARD_SOLVED, EVIL_SOLVED] {
        for _ in 0..10 {
            let mut values = with_blanks(&solved, 30, &mut state);
            let cell = (0..81).find(|cell| values[*cell] != 0).unwrap();
            let row = cell / 9;
            let other = (row * 9..row * 9 + 9).find(|other| *other != cell).unwrap();
            values[other] = values[cell];
            assert!(Board::from_values(&values).solve().is_err());
        }
    }
}

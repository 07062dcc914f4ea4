//! Conversions between digit characters and the numbers they denote.

use vstd::prelude::*;

verus! {

/// True of the characters `'1'` through `'9'`, the ones that set a cell.
pub open spec fn is_digit_char(c: char) -> bool {
    c == '1' || c == '2' || c == '3' || c == '4' || c == '5' || c == '6' || c == '7' || c == '8'
        || c == '9'
}

/// The digit denoted by one of the characters `'1'` through `'9'`
/// (0 on any other character).
pub open spec fn digit_of(c: char) -> int {
    if c == '1' {
        1
    } else if c == '2' {
        2
    } else if c == '3' {
        3
    } else if c == '4' {
        4
    } else if c == '5' {
        5
    } else if c == '6' {
        6
    } else if c == '7' {
        7
    } else if c == '8' {
        8
    } else if c == '9' {
        9
    } else {
        0
    }
}

/// The character that denotes `d`, for `d` in `0..=9` (`'?'` outside).
pub open spec fn digit_char(d: int) -> char {
    if d == 0 {
        '0'
    } else if d == 1 {
        '1'
    } else if d == 2 {
        '2'
    } else if d == 3 {
        '3'
    } else if d == 4 {
        '4'
    } else if d == 5 {
        '5'
    } else if d == 6 {
        '6'
    } else if d == 7 {
        '7'
    } else if d == 8 {
        '8'
    } else if d == 9 {
        '9'
    } else {
        '?'
    }
}

/// The digit a character stands for, if any; `'0'` denotes no digit.
pub(crate) fn i32_from_char(c: char) -> (r: Option<i32>)
    ensures
        is_digit_char(c) ==> r == Some(digit_of(c) as i32),
        !is_digit_char(c) ==> r is None,
{
    match c {
        '1' => Some(1),
        '2' => Some(2),
        '3' => Some(3),
        '4' => Some(4),
        '5' => Some(5),
        '6' => Some(6),
        '7' => Some(7),
        '8' => Some(8),
        '9' => Some(9),
        _ => None,
    }
}

/// The character denoting `v`, for `v` in `0..=9`.
pub(crate) fn char_from32(v: i32) -> (r: Option<char>)
    ensures
        0 <= v <= 9 ==> r == Some(digit_char(v as int)),
        !(0 <= v <= 9) ==> r is None,
{
    match v {
        0 => Some('0'),
        1 => Some('1'),
        2 => Some('2'),
        3 => Some('3'),
        4 => Some('4'),
        5 => Some('5'),
        6 => Some('6'),
        7 => Some('7'),
        8 => Some('8'),
        9 => Some('9'),
        _ => None,
    }
}

} // verus!

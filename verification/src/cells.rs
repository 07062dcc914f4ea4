//! One cell of the grid: its value, its candidate set, and its coordinates.

use vstd::prelude::*;

verus! {

/// State of one cell: a finally determined digit, or the set of digits still
/// possible for the cell, stored as flags with digit `d` at position `d - 1`.
#[derive(Debug, Clone, Copy)]
pub enum BoxValue {
    Known(i32),
    Unknown([bool; 9]),
}

/// Whether the cell value has been finally determined.
pub open spec fn is_known(v: BoxValue) -> bool {
    match v {
        BoxValue::Known(_) => true,
        BoxValue::Unknown(_) => false,
    }
}

/// The determined digit of a known cell value (0 on an unknown one).
pub open spec fn known_value(v: BoxValue) -> int {
    match v {
        BoxValue::Known(k) => k as int,
        BoxValue::Unknown(_) => 0,
    }
}

/// The candidate flags of an unknown cell value (empty on a known one).
pub open spec fn cand_seq(v: BoxValue) -> Seq<bool> {
    match v {
        BoxValue::Known(_) => Seq::empty(),
        BoxValue::Unknown(s) => s@,
    }
}

/// Digit `d` is still a candidate of the cell value `v`.
pub open spec fn cand_has(v: BoxValue, d: int) -> bool {
    !is_known(v) && 1 <= d <= 9 && cand_seq(v)[d - 1]
}

/// How many flags of `s` are set.
pub open spec fn count_true(s: Seq<bool>) -> nat
    decreases s.len(),
{
    if s.len() == 0 {
        0
    } else {
        count_true(s.drop_last()) + if s.last() {
            1nat
        } else {
            0nat
        }
    }
}

/// How many digits are still candidates of the cell value `v`.
pub open spec fn cand_count(v: BoxValue) -> nat {
    count_true(cand_seq(v))
}

/// The least digit of `1..=9` whose flag is set in `s`, starting the search
/// at `d` (10 when no flag at or after `d` is set).
pub open spec fn first_cand_from(s: Seq<bool>, d: int) -> int
    decreases 10 - d,
{
    if d < 1 || d > 9 {
        10
    } else if s.len() == 9 && s[d - 1] {
        d
    } else {
        first_cand_from(s, d + 1)
    }
}

/// The least digit of `1..=9` whose flag is set in `s` (10 when none is).
pub open spec fn first_cand(s: Seq<bool>) -> int {
    first_cand_from(s, 1)
}

pub proof fn lemma_count_true_member(s: Seq<bool>, i: int)
    requires
        0 <= i < s.len(),
        s[i],
    ensures
        count_true(s) >= 1,
    decreases s.len(),
{
    if i < s.len() - 1 {
        lemma_count_true_member(s.drop_last(), i);
    }
}

pub proof fn lemma_count_true_two(s: Seq<bool>, i: int, j: int)
    requires
        0 <= i < s.len(),
        0 <= j < s.len(),
        i != j,
        s[i],
        s[j],
    ensures
        count_true(s) >= 2,
    decreases s.len(),
{
    if i == s.len() - 1 {
        lemma_count_true_member(s.drop_last(), j);
    } else if j == s.len() - 1 {
        lemma_count_true_member(s.drop_last(), i);
    } else {
        lemma_count_true_two(s.drop_last(), i, j);
    }
}

pub proof fn lemma_count_true_pos(s: Seq<bool>)
    requires
        count_true(s) > 0,
    ensures
        exists|k: int| 0 <= k < s.len() && s[k],
    decreases s.len(),
{
    if s.len() > 0 {
        if s.last() {
            assert(s[s.len() - 1]);
        } else {
            lemma_count_true_pos(s.drop_last());
            let k = choose|k: int| 0 <= k < s.len() - 1 && s.drop_last()[k];
            assert(s[k]);
        }
    }
}

/// How many of the nine flags are set.
pub(crate) fn count_candidates(s: &[bool; 9]) -> (n: u32)
    ensures
        n as nat == count_true(s@),
        n <= 9,
{
    let mut n: u32 = 0;
    for i in 0..9usize
        invariant
            n as nat == count_true(s@.take(i as int)),
            n <= i,
    {
        proof {
            assert(s@.take(i + 1).drop_last() =~= s@.take(i as int));
            assert(s@.take(i + 1).last() == s@[i as int]);
        }
        if s[i] {
            n = n + 1;
        }
    }
    proof {
        assert(s@.take(9) =~= s@);
    }
    n
}

/// Whether any of the nine flags is set.
pub(crate) fn any_true(s: &[bool; 9]) -> (r: bool)
    ensures
        r == exists|k: int| 0 <= k < 9 && s@[k],
{
    let mut r: bool = false;
    for i in 0..9usize
        invariant
            r == exists|k: int| 0 <= k < i && s@[k],
    {
        if s[i] {
            r = true;
        }
    }
    r
}

/// The least digit whose flag is set, when one is.
pub(crate) fn first_candidate_of(s: &[bool; 9]) -> (d: i32)
    requires
        exists|k: int| 0 <= k < 9 && s@[k],
    ensures
        1 <= d <= 9,
        s@[d - 1],
        d == first_cand(s@),
{
    let mut d: i32 = 1;
    while d <= 9
        invariant
            1 <= d <= 10,
            forall|k: int| 0 <= k < d - 1 ==> !s@[k],
            first_cand(s@) == first_cand_from(s@, d as int),
        decreases 10 - d,
    {
        if s[(d - 1) as usize] {
            return d;
        }
        d = d + 1;
    }
    proof {
        let k = choose|k: int| 0 <= k < 9 && s@[k];
        assert(!s@[k]);
        assert(false);
    }
    1
}

/// One position of the grid: its 1-based coordinates and its value.
#[derive(Clone, Copy)]
pub struct Node {
    pub row: usize,
    pub col: usize,
    pub value: BoxValue,
}

/// The candidate flags of a fresh cell: every digit possible.
pub open spec fn all_cands() -> [bool; 9] {
    vstd::array::spec_array_fill_for_copy_type::<bool, 9>(true)
}

impl BoxValue {
    /// A fresh unknown cell value: every digit still possible.
    pub(crate) fn init_unknown() -> (r: BoxValue)
        ensures
            r == BoxValue::Unknown(all_cands()),
            forall|d: int| 1 <= d <= 9 ==> cand_has(r, d),
    {
        let r = BoxValue::Unknown([true; 9]);
        proof {
            assert forall|d: int| 1 <= d <= 9 implies cand_has(r, d) by {
                assert(cand_seq(r)[d - 1]);
            }
        }
        r
    }
}

/// The 3x3 square (1 through 9) containing the cell at `row`, `col`
/// (all 1-based), numbered row-major:
///
/// ```text
///   123456789
///   ---------
/// 1|111222333
/// 2|111222333
/// 3|111222333
/// 4|444555666
/// 5|444555666
/// 6|444555666
/// 7|777888999
/// 8|777888999
/// 9|777888999
/// ```
pub open spec fn spec_square(row: int, col: int) -> int {
    ((row - 1) / 3) * 3 + (col - 1) / 3 + 1
}

impl Node {
    /// The square number (1 through 9) of this cell in the sudoku grid.
    pub fn get_square(&self) -> (sq: usize)
        requires
            1 <= self.row <= 9,
            1 <= self.col <= 9,
        ensures
            sq == spec_square(self.row as int, self.col as int),
            1 <= sq <= 9,
    {
        ((self.row - 1) / 3) * 3 + (self.col - 1) / 3 + 1
    }

    /// The 1-based coordinates of the cell at offset `idx` (row-major,
    /// 0 through 8) within square `square_id`.
    pub fn reverse_square(square_id: usize, idx: usize) -> (rc: (usize, usize))
        requires
            1 <= square_id <= 9,
            idx < 9,
        ensures
            rc.0 == ((square_id - 1) / 3) * 3 + idx / 3 + 1,
            rc.1 == ((square_id - 1) % 3) * 3 + idx % 3 + 1,
            1 <= rc.0 <= 9,
            1 <= rc.1 <= 9,
            spec_square(rc.0 as int, rc.1 as int) == square_id,
    {
        let r_mult = (square_id - 1) / 3;
        let c_mult = (square_id - 1) % 3;

        let row = (r_mult * 3) + (idx / 3) + 1;
        let col = (c_mult * 3) + (idx % 3) + 1;
        (row, col)
    }
}

} // verus!

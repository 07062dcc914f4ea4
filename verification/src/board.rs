//! The 81-cell board: its model, the commit operation and its propagation,
//! filling from text, and rendering back to text.

use vstd::prelude::*;

use crate::cells::BoxValue;
use crate::cells::Node;
use crate::cells::any_true;
use crate::cells::cand_count;
use crate::cells::cand_has;
use crate::cells::cand_seq;
use crate::cells::count_candidates;
use crate::cells::first_cand;
use crate::cells::first_candidate_of;
use crate::cells::is_known;
use crate::cells::known_value;
use crate::digits::char_from32;
use crate::digits::digit_char;
use crate::digits::digit_of;
use crate::digits::i32_from_char;
use crate::digits::is_digit_char;
use vstd::array::spec_array_update;
use vstd::string::StrSliceExecFns;
use vstd::string::StringExecFns;

verus! {

/// The errors of the board and solver operations.
#[derive(Debug)]
pub enum SudokuError {
    /// A row or column outside 1..=9 was supplied.
    InvalidRange,
    /// A commit would leave some cell with no candidate left, or the
    /// exhaustive search found no consistent assignment.
    NotSolvable,
    /// A forced commit was asked of a cell with more than one candidate.
    TooManyOptions,
    /// A forced commit was asked of a cell already known.
    AlreadyKnown,
    /// The board is not fully solved and needs branching help.
    NoFullySolved,
    /// An internal invariant was violated.
    Unknown,
}

pub type SudokuResult = Result<(), SudokuError>;

/// The 0-based row of the cell at linear index `i` (row-major).
pub open spec fn row_of(i: int) -> int {
    i / 9
}

/// The 0-based column of the cell at linear index `i`.
pub open spec fn col_of(i: int) -> int {
    i % 9
}

/// The 0-based 3x3 square of the cell at linear index `i`.
pub open spec fn block_of(i: int) -> int {
    (i / 9 / 3) * 3 + (i % 9) / 3
}

/// Two distinct cells that share a row, a column, or a 3x3 square.
pub open spec fn is_peer(i: int, j: int) -> bool {
    0 <= i < 81 && 0 <= j < 81 && i != j && (row_of(i) == row_of(j) || col_of(i) == col_of(j)
        || block_of(i) == block_of(j))
}

/// The linear index of the cell at 1-based `row`, `col`.
pub open spec fn cell_index(row: int, col: int) -> int {
    (row - 1) * 9 + (col - 1)
}

/// The cells carry their own coordinates, and every known digit is in range.
pub open spec fn wf_cells(b: Seq<Node>) -> bool {
    b.len() == 81 && forall|i: int|
        0 <= i < 81 ==> {
            &&& (#[trigger] b[i]).row == i / 9 + 1
            &&& b[i].col == i % 9 + 1
            &&& (is_known(b[i].value) ==> 1 <= known_value(b[i].value) <= 9)
            &&& (!is_known(b[i].value) ==> cand_seq(b[i].value).len() == 9)
        }
}

/// How many cells of `b` are still unknown.
pub open spec fn count_unknowns(b: Seq<Node>) -> nat
    decreases b.len(),
{
    if b.len() == 0 {
        0
    } else {
        count_unknowns(b.drop_last()) + if is_known(b.last().value) {
            0nat
        } else {
            1nat
        }
    }
}

/// Cell `i` of `b` is known to hold digit `d`.
pub open spec fn board_known(b: Seq<Node>, i: int, d: int) -> bool {
    0 <= i < b.len() && is_known(b[i].value) && known_value(b[i].value) == d
}

/// Digit `d` is still a candidate of the (unknown) cell `i` of `b`.
pub open spec fn board_cand(b: Seq<Node>, i: int, d: int) -> bool {
    0 <= i < b.len() && cand_has(b[i].value, d)
}

/// Every known digit has been excluded from the candidate sets of its peers.
pub open spec fn excluded(b: Seq<Node>) -> bool {
    forall|i: int, j: int, d: int|
        #![trigger board_known(b, i, d), board_cand(b, j, d)]
        is_peer(i, j) && board_known(b, i, d) ==> !board_cand(b, j, d)
}

/// A digit is missing from a candidate set only because a peer holds it:
/// candidate sets are never pruned beyond what the known cells force.
pub open spec fn complete(b: Seq<Node>) -> bool {
    forall|i: int, d: int|
        0 <= i < 81 && 1 <= d <= 9 && !is_known(b[i].value) && !(#[trigger] board_cand(b, i, d))
            ==> exists|j: int| is_peer(i, j) && #[trigger] board_known(b, j, d)
}

/// Every unknown cell still has at least one candidate.
pub open spec fn nonempty(b: Seq<Node>) -> bool {
    forall|i: int|
        0 <= i < 81 && !is_known((#[trigger] b[i]).value) ==> exists|d: int|
            #[trigger] board_cand(b, i, d)
}

/// No row, column, or 3x3 square holds the same known digit twice.
pub open spec fn no_dup(b: Seq<Node>) -> bool {
    forall|i: int, j: int, d: int|
        #![trigger board_known(b, i, d), board_known(b, j, d)]
        is_peer(i, j) && board_known(b, i, d) ==> !board_known(b, j, d)
}

/// Every cell of `b` is known.
pub open spec fn full_board(b: Seq<Node>) -> bool {
    forall|i: int| 0 <= i < 81 ==> is_known((#[trigger] b[i]).value)
}

/// Every known cell of `b` holds the same digit in `s`.
pub open spec fn agrees(b: Seq<Node>, s: Seq<Node>) -> bool {
    forall|i: int, d: int|
        #![trigger board_known(b, i, d), board_known(s, i, d)]
        board_known(b, i, d) ==> board_known(s, i, d)
}

/// `s` is a solution of the puzzle state `b`: a full grid of digits with no
/// repetition in any row, column or square, agreeing with every known cell
/// of `b`.
pub open spec fn is_solution_of(s: Seq<Node>, b: Seq<Node>) -> bool {
    &&& s.len() == 81
    &&& full_board(s)
    &&& (forall|i: int| 0 <= i < 81 ==> 1 <= known_value((#[trigger] s[i]).value) <= 9)
    &&& no_dup(s)
    &&& agrees(b, s)
}

/// `b2` is a later state of `b1` under commits: known cells are unchanged,
/// candidate sets only shrank, and every newly known digit was still a
/// candidate of its cell.
pub open spec fn refines(b2: Seq<Node>, b1: Seq<Node>) -> bool {
    &&& b1.len() == 81
    &&& b2.len() == 81
    &&& (forall|i: int| 0 <= i < 81 && is_known((#[trigger] b1[i]).value) ==> b2[i] == b1[i])
    &&& (forall|i: int, d: int| #[trigger] board_cand(b2, i, d) ==> board_cand(b1, i, d))
    &&& (forall|i: int, d: int|
        !is_known(b1[i].value) && #[trigger] board_known(b2, i, d) ==> board_cand(b1, i, d))
}

/// The cell value `v` with digit `d` no longer a candidate.
pub open spec fn remove_cand(v: BoxValue, d: int) -> BoxValue {
    match v {
        BoxValue::Known(k) => BoxValue::Known(k),
        BoxValue::Unknown(s) => BoxValue::Unknown(spec_array_update(s, d - 1, false)),
    }
}

/// The board after committing digit `v` to cell `i`: that cell becomes
/// known, and `v` is removed from the candidate set of every unknown peer.
pub open spec fn committed(b: Seq<Node>, i: int, v: int) -> Seq<Node> {
    Seq::new(
        81,
        |j: int|
            if j == i {
                Node { row: b[i].row, col: b[i].col, value: BoxValue::Known(v as i32) }
            } else if is_peer(i, j) && !is_known(b[j].value) {
                Node { row: b[j].row, col: b[j].col, value: remove_cand(b[j].value, v) }
            } else {
                b[j]
            },
    )
}

/// Committing digit `v` to cell `i` leaves every unknown peer with at least
/// one candidate; this is exactly when the commit succeeds.
pub open spec fn commit_allowed(b: Seq<Node>, i: int, v: int) -> bool {
    forall|j: int|
        #[trigger] is_peer(i, j) && !is_known(b[j].value) ==> exists|d: int|
            d != v && #[trigger] board_cand(b, j, d)
}

/// The fresh board: each cell at its coordinates, every digit possible.
pub open spec fn init_cells() -> Seq<Node> {
    Seq::new(
        81,
        |i: int|
            Node {
                row: (i / 9 + 1) as usize,
                col: (i % 9 + 1) as usize,
                value: BoxValue::Unknown(crate::cells::all_cands()),
            },
    )
}

/// A 9x9 sudoku board: the 81 cells in row-major order, and the count of
/// cells whose value is still unknown.
#[derive(Clone, Copy)]
pub struct SudokuBoard {
    pub(crate) cells: [Node; 81],
    pub(crate) unknown_values: i32,
}

impl View for SudokuBoard {
    type V = Seq<Node>;

    open(crate) spec fn view(&self) -> Seq<Node> {
        self.cells@
    }
}

impl SudokuBoard {
    /// The count of cells the board holds as still unknown.
    pub open(crate) spec fn unknowns(self) -> int {
        self.unknown_values as int
    }

    /// The count of still-unknown cells matches the cells, and the cells
    /// carry their coordinates.
    pub open spec fn wf(self) -> bool {
        wf_cells(self@) && self.unknowns() == count_unknowns(self@)
    }

    /// The board invariant, established by `new` and kept by every
    /// successful commit: well-formed, with candidate sets pruned exactly
    /// as far as the known cells force, and never pruned to nothing.
    pub open spec fn inv(self) -> bool {
        self.wf() && excluded(self@) && complete(self@) && nonempty(self@)
    }

    /// How many cells are still unknown.
    pub fn unknown_count(&self) -> (n: i32)
        ensures
            n == self.unknowns(),
    {
        self.unknown_values
    }

    /// A fresh board: all 81 cells unknown with every digit possible.
    pub fn new() -> (b: SudokuBoard)
        ensures
            b@ == init_cells(),
            b.unknowns() == 81,
            b.inv(),
    {
        let init = Node { row: 1, col: 1, value: BoxValue::init_unknown() };
        let mut cells: [Node; 81] = [init; 81];
        for i in 0..81usize
            invariant
                forall|k: int| 0 <= k < i ==> cells@[k] == init_cells()[k],
        {
            cells[i] = Node { row: i / 9 + 1, col: i % 9 + 1, value: BoxValue::init_unknown() };
        }
        let b = SudokuBoard { cells, unknown_values: 81 };
        proof {
            assert(b@ =~= init_cells());
            lemma_count_all_unknown(b@);
            assert forall|i: int, d: int| 0 <= i < 81 && 1 <= d <= 9 implies board_cand(
                b@,
                i,
                d,
            ) by {
                assert(cand_seq(b@[i].value)[d - 1]);
            }
            assert(nonempty(b@)) by {
                assert forall|i: int| 0 <= i < 81 && !is_known((#[trigger] b@[i]).value)
                    implies exists|d: int| #[trigger] board_cand(b@, i, d) by {
                    assert(board_cand(b@, i, 1));
                }
            }
        }
        b
    }
}

/// What committing digit `v` at `row`, `col` does to a board: out-of-range
/// coordinates are rejected unchanged; otherwise the commit succeeds exactly
/// when no unknown peer is left without candidates, producing `committed`
/// and lowering the unknown count by one; on failure the count is unchanged
/// and each cell is either untouched or already at its committed state.
pub open spec fn commit_post(
    pre: SudokuBoard,
    post: SudokuBoard,
    row: int,
    col: int,
    v: int,
    r: SudokuResult,
) -> bool {
    let b0 = pre@;
    let i = cell_index(row, col);
    if !(1 <= row <= 9 && 1 <= col <= 9) {
        &&& r == Err::<(), SudokuError>(SudokuError::InvalidRange)
        &&& post@ == b0
        &&& post.unknowns() == pre.unknowns()
    } else if commit_allowed(b0, i, v) {
        &&& r is Ok
        &&& post@ == committed(b0, i, v)
        &&& post.unknowns() == pre.unknowns() - 1
        &&& (!is_known(b0[i].value) ==> post.wf())
    } else {
        &&& r == Err::<(), SudokuError>(SudokuError::NotSolvable)
        &&& post.unknowns() == pre.unknowns()
        &&& post@.len() == 81
        &&& post@[i] == committed(b0, i, v)[i]
        &&& forall|k: int|
            0 <= k < 81 && k != i ==> (post@[k] == b0[k] || post@[k] == committed(b0, i, v)[k])
    }
}

/// Whether the cells at linear indices `i` and `j` are peers.
fn is_peer_cells(i: usize, j: usize) -> (r: bool)
    requires
        i < 81,
        j < 81,
    ensures
        r == is_peer(i as int, j as int),
{
    if i == j {
        return false;
    }
    let ri = i / 9;
    let ci = i % 9;
    let rj = j / 9;
    let cj = j % 9;
    proof {
        assert(0 <= ci / 3 < 3);
        assert(0 <= cj / 3 < 3);
    }
    ri == rj || ci == cj || (ri / 3 == rj / 3 && ci / 3 == cj / 3)
}

impl SudokuBoard {
    /// Commit `known_value` to the cell at `row`, `col` (both 1-based) and
    /// remove it from the candidate sets of all peers; fail with
    /// `NotSolvable` as soon as some unknown peer is left with none.
    #[verifier::loop_isolation(false)]
    pub fn mark_as_known(&mut self, row: usize, col: usize, known_value: i32) -> (r: SudokuResult)
        requires
            old(self).wf(),
            1 <= known_value <= 9,
        ensures
            commit_post(*old(self), *final(self), row as int, col as int, known_value as int, r),
    {
        if row < 1 || row > 9 {
            return Err(SudokuError::InvalidRange);
        }
        if col < 1 || col > 9 {
            return Err(SudokuError::InvalidRange);
        }
        let i: usize = (row - 1) * 9 + (col - 1);
        let ghost b0 = self@;
        let ghost vi = known_value as int;
        let nd = self.cells[i];
        self.cells[i] = Node { row: nd.row, col: nd.col, value: BoxValue::Known(known_value) };
        proof {
            assert(b0[i as int].row == i as int / 9 + 1);
            assert(self.cells@[i as int] == committed(b0, i as int, vi)[i as int]);
        }
        let mut j: usize = 0;
        while j < 81
            invariant
                0 <= j <= 81,
                self.unknown_values == old(self).unknown_values,
                self.cells@[i as int] == committed(b0, i as int, vi)[i as int],
                forall|k: int|
                    0 <= k < j && k != i ==> self.cells@[k] == committed(b0, i as int, vi)[k],
                forall|k: int| j <= k < 81 && k != i ==> self.cells@[k] == b0[k],
                forall|k: int|
                    0 <= k < j && k != i && is_peer(i as int, k) && !is_known(b0[k].value)
                        ==> exists|d: int| d != vi && #[trigger] board_cand(b0, k, d),
            decreases 81 - j,
        {
            if j != i {
                if is_peer_cells(i, j) {
                    let ndj = self.cells[j];
                    match ndj.value {
                        BoxValue::Known(_) => {},
                        BoxValue::Unknown(sarr) => {
                            let mut s2 = sarr;
                            s2[(known_value - 1) as usize] = false;
                            proof {
                                assert(s2 =~= spec_array_update(sarr, vi - 1, false));
                            }
                            let keeps_any = any_true(&s2);
                            self.cells[j] = Node {
                                row: ndj.row,
                                col: ndj.col,
                                value: BoxValue::Unknown(s2),
                            };
                            proof {
                                assert(self.cells@[j as int] == committed(b0, i as int, vi)[
                                    j as int]);
                            }
                            if !keeps_any {
                                proof {
                                    assert forall|d: int|
                                        d != vi && #[trigger] board_cand(b0, j as int, d)
                                        implies false by {
                                        assert(s2@[d - 1] == sarr@[d - 1]);
                                    }
                                    assert(!commit_allowed(b0, i as int, vi));
                                }
                                return Err(SudokuError::NotSolvable);
                            }
                            proof {
                                let k = choose|k: int| 0 <= k < 9 && s2@[k];
                                assert(sarr@[k]);
                                assert(k != vi - 1);
                                assert(board_cand(b0, j as int, k + 1));
                            }
                        },
                    }
                }
            }
            j += 1;
        }
        proof {
            assert(self.cells@ =~= committed(b0, i as int, vi));
            assert(commit_allowed(b0, i as int, vi));
            if !is_known(b0[i as int].value) {
                crate::laws::lemma_commit_unknown_count(b0, i as int, vi);
                assert(wf_cells(committed(b0, i as int, vi)));
            }
        }
        self.unknown_values = self.unknown_values - 1;
        Ok(())
    }
}

/// What a forced commit at `row`, `col` does: it rejects out-of-range
/// coordinates, an already known cell, an empty candidate set, and a set
/// with several candidates, each unchanged; on a cell with exactly one
/// candidate left it commits that digit.
pub open spec fn single_post(
    pre: SudokuBoard,
    post: SudokuBoard,
    row: int,
    col: int,
    r: SudokuResult,
) -> bool {
    let b0 = pre@;
    let i = cell_index(row, col);
    if !(1 <= row <= 9 && 1 <= col <= 9) {
        &&& r == Err::<(), SudokuError>(SudokuError::InvalidRange)
        &&& post@ == b0
        &&& post.unknowns() == pre.unknowns()
    } else if is_known(b0[i].value) {
        &&& r == Err::<(), SudokuError>(SudokuError::AlreadyKnown)
        &&& post@ == b0
        &&& post.unknowns() == pre.unknowns()
    } else if cand_count(b0[i].value) == 0 {
        &&& r == Err::<(), SudokuError>(SudokuError::NotSolvable)
        &&& post@ == b0
        &&& post.unknowns() == pre.unknowns()
    } else if cand_count(b0[i].value) > 1 {
        &&& r == Err::<(), SudokuError>(SudokuError::TooManyOptions)
        &&& post@ == b0
        &&& post.unknowns() == pre.unknowns()
    } else {
        &&& commit_post(pre, post, row, col, first_cand(cand_seq(b0[i].value)), r)
        &&& board_cand(b0, i, first_cand(cand_seq(b0[i].value)))
    }
}

impl SudokuBoard {
    /// Commit the single remaining candidate of the cell at `row`, `col`.
    pub fn mark_single_option(&mut self, row: usize, col: usize) -> (r: SudokuResult)
        requires
            old(self).wf(),
        ensures
            single_post(*old(self), *final(self), row as int, col as int, r),
    {
        if row < 1 || row > 9 {
            return Err(SudokuError::InvalidRange);
        }
        if col < 1 || col > 9 {
            return Err(SudokuError::InvalidRange);
        }
        let i: usize = (row - 1) * 9 + (col - 1);
        let nd = self.cells[i];
        let single: i32 = match nd.value {
            BoxValue::Known(_) => {
                return Err(SudokuError::AlreadyKnown);
            },
            BoxValue::Unknown(sarr) => {
                let cnt = count_candidates(&sarr);
                if cnt == 0 {
                    return Err(SudokuError::NotSolvable);
                }
                if cnt != 1 {
                    return Err(SudokuError::TooManyOptions);
                }
                proof {
                    crate::cells::lemma_count_true_pos(sarr@);
                }
                first_candidate_of(&sarr)
            },
        };
        self.mark_as_known(row, col, single)
    }
}

/// The board and position reached by processing an input text character by
/// character: digits commit at the next grid position, the placeholders
/// `'0'` and `'-'` skip it, and every other character is ignored.  The
/// first failing commit stops the processing with its error.
pub open spec fn fill_state(s: Seq<char>) -> Result<(Seq<Node>, int), SudokuError>
    decreases s.len(),
{
    if s.len() == 0 {
        Ok((init_cells(), 0))
    } else {
        match fill_state(s.drop_last()) {
            Err(e) => Err(e),
            Ok((b, pos)) => {
                let c = s.last();
                if is_digit_char(c) {
                    if pos >= 81 {
                        Err(SudokuError::InvalidRange)
                    } else if commit_allowed(b, pos, digit_of(c)) {
                        Ok((committed(b, pos, digit_of(c)), pos + 1))
                    } else {
                        Err(SudokuError::NotSolvable)
                    }
                } else if c == '0' || c == '-' {
                    Ok((b, pos + 1))
                } else {
                    Ok((b, pos))
                }
            },
        }
    }
}

/// The cells reached by filling from `s`, when no commit fails.
pub open spec fn fill_cells(s: Seq<char>) -> Seq<Node> {
    match fill_state(s) {
        Ok(p) => p.0,
        Err(_) => Seq::empty(),
    }
}

/// The error of the first failing commit when filling from `s`.
pub open spec fn fill_err(s: Seq<char>) -> SudokuError {
    match fill_state(s) {
        Ok(_) => SudokuError::Unknown,
        Err(e) => e,
    }
}

/// Once a prefix of the input fails to fill, the whole input fails the
/// same way.
pub proof fn lemma_fill_err_extends(s: Seq<char>, k: int)
    requires
        0 <= k <= s.len(),
        fill_state(s.take(k)) is Err,
    ensures
        fill_state(s) == fill_state(s.take(k)),
    decreases s.len() - k,
{
    if k == s.len() {
        assert(s.take(k) =~= s);
    } else {
        assert(s.take(k + 1).drop_last() =~= s.take(k));
        lemma_fill_err_extends(s, k + 1);
    }
}

impl SudokuBoard {
    /// Initialize a board from a text: the digit characters commit the
    /// grid cells left to right, top to bottom, `'0'` and `'-'` leave a
    /// cell unknown, and every other character is ignored.
    #[verifier::loop_isolation(false)]
    pub fn fill_board(s: &String) -> (r: Result<SudokuBoard, SudokuError>)
        ensures
            r is Ok <==> fill_state(s@) is Ok,
            r matches Ok(bd) ==> bd@ == fill_cells(s@) && bd.inv(),
            r matches Err(e) ==> e == fill_err(s@),
    {
        let mut board = SudokuBoard::new();
        let text = s.as_str();
        let n = text.unicode_len();
        let mut i: usize = 0;
        let mut pos: usize = 0;
        proof {
            assert(s@.take(0) =~= Seq::<char>::empty());
        }
        while i < n
            invariant
                0 <= i <= n,
                n == s@.len(),
                pos <= i,
                fill_state(s@.take(i as int)) == Ok::<(Seq<Node>, int), SudokuError>(
                    (board@, pos as int),
                ),
                board.inv(),
                forall|k: int| pos <= k < 81 ==> !is_known((#[trigger] board@[k]).value),
            decreases n - i,
        {
            let c = text.get_char(i);
            proof {
                assert(s@.take(i + 1).drop_last() =~= s@.take(i as int));
                assert(s@.take(i + 1).last() == s@[i as int]);
            }
            match i32_from_char(c) {
                Some(v) => {
                    let row = pos / 9 + 1;
                    let col = pos % 9 + 1;
                    let ghost b0 = board@;
                    proof {
                        vstd::arithmetic::div_mod::lemma_fundamental_div_mod(pos as int, 9);
                        if pos < 81 {
                            assert(cell_index(row as int, col as int) == pos as int);
                        }
                    }
                    let res = board.mark_as_known(row, col, v);
                    match res {
                        Ok(()) => {
                            proof {
                                crate::laws::lemma_commit_preserves_inv(b0, pos as int, v as int);
                                crate::laws::lemma_committed_cells(b0, pos as int, v as int);
                            }
                            pos = pos + 1;
                        },
                        Err(e) => {
                            proof {
                                lemma_fill_err_extends(s@, i + 1);
                            }
                            return Err(e);
                        },
                    }
                },
                None => {
                    if c == '0' || c == '-' {
                        pos = pos + 1;
                    }
                },
            }
            i += 1;
        }
        proof {
            assert(s@.take(n as int) =~= s@);
        }
        Ok(board)
    }
}

/// The character a cell is rendered as: its digit when known, `'-'` when
/// still unknown (`'?'` only for a digit outside the valid range).
pub open spec fn render_char(v: BoxValue) -> char {
    match v {
        BoxValue::Known(k) => if 0 <= k <= 9 {
            digit_char(k as int)
        } else {
            '?'
        },
        BoxValue::Unknown(_) => '-',
    }
}

/// The 81-character row-major rendering of the board.
pub open spec fn render_spec(b: Seq<Node>) -> Seq<char> {
    Seq::new(b.len(), |i: int| render_char(b[i].value))
}

/// The diagnostic character of a cell: `'K'` when known, else the count of
/// remaining candidates.
pub open spec fn possibility_char(v: BoxValue) -> char {
    match v {
        BoxValue::Known(_) => 'K',
        BoxValue::Unknown(_) => digit_char(cand_count(v) as int),
    }
}

/// The 81-character diagnostic rendering of the board.
pub open spec fn possibility_spec(b: Seq<Node>) -> Seq<char> {
    Seq::new(b.len(), |i: int| possibility_char(b[i].value))
}

/// The one-character text a cell is rendered as.
fn render_cell_str(v: &BoxValue) -> (r: &'static str)
    ensures
        r@ == seq![render_char(*v)],
{
    let s: &'static str = match v {
        BoxValue::Unknown(_) => "-",
        BoxValue::Known(k) => match char_from32(*k) {
            None => "?",
            Some(c) => match c {
                '0' => "0",
                '1' => "1",
                '2' => "2",
                '3' => "3",
                '4' => "4",
                '5' => "5",
                '6' => "6",
                '7' => "7",
                '8' => "8",
                '9' => "9",
                _ => "?",
            },
        },
    };
    proof {
        reveal_strlit("-");
        reveal_strlit("0");
        reveal_strlit("1");
        reveal_strlit("2");
        reveal_strlit("3");
        reveal_strlit("4");
        reveal_strlit("5");
        reveal_strlit("6");
        reveal_strlit("7");
        reveal_strlit("8");
        reveal_strlit("9");
        reveal_strlit("?");
        assert(s@ =~= seq![render_char(*v)]);
    }
    s
}

/// The one-character text for a candidate count.
fn count_str(c: u32) -> (r: &'static str)
    requires
        c <= 9,
    ensures
        r@ == seq![digit_char(c as int)],
{
    let s: &'static str = match c {
        0 => "0",
        1 => "1",
        2 => "2",
        3 => "3",
        4 => "4",
        5 => "5",
        6 => "6",
        7 => "7",
        8 => "8",
        _ => "9",
    };
    proof {
        reveal_strlit("0");
        reveal_strlit("1");
        reveal_strlit("2");
        reveal_strlit("3");
        reveal_strlit("4");
        reveal_strlit("5");
        reveal_strlit("6");
        reveal_strlit("7");
        reveal_strlit("8");
        reveal_strlit("9");
        assert(s@ =~= seq![digit_char(c as int)]);
    }
    s
}

impl SudokuBoard {
    /// Render the board as its 81-character row-major text.
    #[verifier::loop_isolation(false)]
    pub fn print_board(&self) -> (r: String)
        ensures
            r@ == render_spec(self@),
    {
        let mut out = String::new();
        for i in 0..81usize
            invariant
                out@ == render_spec(self@).take(i as int),
        {
            let cs = render_cell_str(&self.cells[i].value);
            out.append(cs);
            proof {
                assert(render_spec(self@).take(i + 1) =~= render_spec(self@).take(i as int)
                    + seq![render_char(self@[i as int].value)]);
            }
        }
        proof {
            assert(render_spec(self@).take(81) =~= render_spec(self@));
        }
        out
    }

    /// Render, per cell, how many candidates remain (`'K'` once known).
    #[verifier::loop_isolation(false)]
    pub fn print_possibility(&self) -> (r: String)
        ensures
            r@ == possibility_spec(self@),
    {
        let mut out = String::new();
        for i in 0..81usize
            invariant
                out@ == possibility_spec(self@).take(i as int),
        {
            let cs: &'static str = match self.cells[i].value {
                BoxValue::Known(_) => {
                    proof {
                        reveal_strlit("K");
                        assert("K"@ =~= seq![possibility_char(self@[i as int].value)]);
                    }
                    "K"
                },
                BoxValue::Unknown(sarr) => {
                    let cnt = count_candidates(&sarr);
                    count_str(cnt)
                },
            };
            out.append(cs);
            proof {
                assert(possibility_spec(self@).take(i + 1) =~= possibility_spec(self@).take(
                    i as int,
                ) + seq![possibility_char(self@[i as int].value)]);
            }
        }
        proof {
            assert(possibility_spec(self@).take(81) =~= possibility_spec(self@));
        }
        out
    }
}

/// A board whose cells are all unknown has as many unknowns as cells.
proof fn lemma_count_all_unknown(b: Seq<Node>)
    requires
        forall|i: int| 0 <= i < b.len() ==> !is_known((#[trigger] b[i]).value),
    ensures
        count_unknowns(b) == b.len(),
    decreases b.len(),
{
    if b.len() > 0 {
        lemma_count_all_unknown(b.drop_last());
    }
}

} // verus!

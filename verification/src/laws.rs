//! Proofs about the board model: how a commit changes the unknown count,
//! which invariants it keeps, and what the solver's answers mean.

use vstd::prelude::*;

use crate::board::board_cand;
use crate::board::board_known;
use crate::board::commit_allowed;
use crate::board::committed;
use crate::board::complete;
use crate::board::count_unknowns;
use crate::board::excluded;
use crate::board::full_board;
use crate::board::fill_cells;
use crate::board::fill_state;
use crate::board::init_cells;
use crate::board::lemma_fill_err_extends;
use crate::board::render_spec;
use crate::board::is_peer;
use crate::board::is_solution_of;
use crate::board::no_dup;
use crate::board::nonempty;
use crate::board::refines;
use crate::board::wf_cells;
use crate::cells::BoxValue;
use crate::cells::Node;
use crate::cells::cand_seq;
use crate::cells::is_known;
use crate::cells::known_value;
use crate::digits::digit_of;
use crate::digits::is_digit_char;

verus! {

/// Two boards whose cells are known at exactly the same positions have the
/// same number of unknowns.
pub proof fn lemma_count_unknowns_pointwise(a: Seq<Node>, b: Seq<Node>)
    requires
        a.len() == b.len(),
        forall|k: int|
            0 <= k < a.len() ==> is_known((#[trigger] a[k]).value) == is_known(b[k].value),
    ensures
        count_unknowns(a) == count_unknowns(b),
    decreases a.len(),
{
    if a.len() > 0 {
        lemma_count_unknowns_pointwise(a.drop_last(), b.drop_last());
    }
}

/// Turning one unknown cell into a known one lowers the unknown count by
/// exactly one.
pub proof fn lemma_count_unknowns_update(b: Seq<Node>, i: int, n: Node)
    requires
        0 <= i < b.len(),
        !is_known(b[i].value),
        is_known(n.value),
    ensures
        count_unknowns(b.update(i, n)) + 1 == count_unknowns(b),
    decreases b.len(),
{
    if i == b.len() - 1 {
        assert(b.update(i, n).drop_last() =~= b.drop_last());
    } else {
        assert(b.update(i, n).drop_last() =~= b.drop_last().update(i, n));
        lemma_count_unknowns_update(b.drop_last(), i, n);
    }
}

/// No cell of `b` is unknown exactly when its unknown count is zero.
pub proof fn lemma_count_unknowns_zero(b: Seq<Node>)
    requires
        count_unknowns(b) == 0,
    ensures
        forall|i: int| 0 <= i < b.len() ==> is_known((#[trigger] b[i]).value),
    decreases b.len(),
{
    if b.len() > 0 {
        lemma_count_unknowns_zero(b.drop_last());
        assert forall|i: int| 0 <= i < b.len() implies is_known((#[trigger] b[i]).value) by {
            if i < b.len() - 1 {
                assert(b.drop_last()[i] == b[i]);
            }
        }
    }
}

/// A board with an unknown cell has a positive unknown count.
pub proof fn lemma_count_unknowns_member(b: Seq<Node>, i: int)
    requires
        0 <= i < b.len(),
        !is_known(b[i].value),
    ensures
        count_unknowns(b) >= 1,
    decreases b.len(),
{
    if i < b.len() - 1 {
        lemma_count_unknowns_member(b.drop_last(), i);
    }
}

/// The unknown count never exceeds the number of cells.
pub proof fn lemma_count_unknowns_le_len(b: Seq<Node>)
    ensures
        count_unknowns(b) <= b.len(),
    decreases b.len(),
{
    if b.len() > 0 {
        lemma_count_unknowns_le_len(b.drop_last());
    }
}

/// A successful commit on an unknown cell turns exactly that cell known:
/// the count of unknown cells drops by exactly one, and in particular it
/// was positive before, so it never drops below zero.
pub proof fn lemma_commit_unknown_count(b: Seq<Node>, i: int, v: int)
    requires
        b.len() == 81,
        0 <= i < 81,
        !is_known(b[i].value),
    ensures
        count_unknowns(committed(b, i, v)) + 1 == count_unknowns(b),
        count_unknowns(b) >= 1,
    decreases b.len(),
{
    let c = committed(b, i, v);
    let n = Node { row: b[i].row, col: b[i].col, value: BoxValue::Known(v as i32) };
    let u = b.update(i, n);
    lemma_count_unknowns_pointwise(c, u);
    lemma_count_unknowns_update(b, i, n);
    lemma_count_unknowns_member(b, i);
}

/// How `committed` relates cell by cell to the board it came from.
pub proof fn lemma_committed_cells(b: Seq<Node>, i: int, v: int)
    requires
        wf_cells(b),
        0 <= i < 81,
        1 <= v <= 9,
    ensures
        committed(b, i, v).len() == 81,
        forall|j: int|
            0 <= j < 81 ==> (#[trigger] committed(b, i, v)[j]).row == b[j].row && committed(
                b,
                i,
                v,
            )[j].col == b[j].col,
        forall|j: int|
            0 <= j < 81 ==> is_known((#[trigger] committed(b, i, v)[j]).value) == (j == i
                || is_known(b[j].value)),
        forall|j: int, d: int|
            #![trigger board_known(committed(b, i, v), j, d)]
            0 <= j < 81 ==> (board_known(committed(b, i, v), j, d) <==> (if j == i {
                d == v
            } else {
                board_known(b, j, d)
            })),
        forall|j: int, d: int|
            #![trigger board_cand(committed(b, i, v), j, d)]
            0 <= j < 81 ==> (board_cand(committed(b, i, v), j, d) <==> (j != i && board_cand(
                b,
                j,
                d,
            ) && !(is_peer(i, j) && d == v))),
        wf_cells(committed(b, i, v)),
{
    let c = committed(b, i, v);
    assert(b[i].row == i / 9 + 1);
    assert forall|j: int, d: int| 0 <= j < 81 implies (board_cand(c, j, d) <==> (j != i
        && board_cand(b, j, d) && !(is_peer(i, j) && d == v))) by {
        if j != i && is_peer(i, j) && !is_known(b[j].value) {
            let s0 = cand_seq(b[j].value);
            assert(cand_seq(c[j].value) == s0.update(v - 1, false));
            if 1 <= d <= 9 {
                if d == v {
                    assert(!cand_seq(c[j].value)[d - 1]);
                } else {
                    assert(cand_seq(c[j].value)[d - 1] == s0[d - 1]);
                }
            }
        }
    }
    assert forall|j: int| 0 <= j < 81 implies (#[trigger] c[j]).row == b[j].row && c[j].col
        == b[j].col by {}
    assert forall|j: int| 0 <= j < 81 && !is_known((#[trigger] c[j]).value) implies cand_seq(
        c[j].value,
    ).len() == 9 by {
        if j != i && is_peer(i, j) && !is_known(b[j].value) {
            assert(cand_seq(c[j].value) == cand_seq(b[j].value).update(v - 1, false));
        }
    }
}

/// A successful commit keeps the board invariant: exclusions stay justified,
/// candidate sets stay exactly as pruned as the known cells force, and no
/// unknown cell is left without candidates.
pub proof fn lemma_commit_preserves_inv(b: Seq<Node>, i: int, v: int)
    requires
        wf_cells(b),
        excluded(b),
        complete(b),
        nonempty(b),
        0 <= i < 81,
        1 <= v <= 9,
        !is_known(b[i].value),
        commit_allowed(b, i, v),
    ensures
        wf_cells(committed(b, i, v)),
        excluded(committed(b, i, v)),
        complete(committed(b, i, v)),
        nonempty(committed(b, i, v)),
{
    let c = committed(b, i, v);
    lemma_committed_cells(b, i, v);
    assert forall|i2: int, j2: int, d: int|
        is_peer(i2, j2) && #[trigger] board_known(c, i2, d) implies !(#[trigger] board_cand(
        c,
        j2,
        d,
    )) by {
        if i2 == i {
            assert(d == v);
        } else {
            assert(board_known(b, i2, d));
            if board_cand(c, j2, d) {
                assert(board_cand(b, j2, d));
            }
        }
    }
    assert forall|j: int, d: int|
        0 <= j < 81 && 1 <= d <= 9 && !is_known(c[j].value) && !(#[trigger] board_cand(c, j, d))
        implies exists|k: int| is_peer(j, k) && #[trigger] board_known(c, k, d) by {
        assert(j != i);
        assert(!is_known(b[j].value));
        if !board_cand(b, j, d) {
            let k = choose|k: int| is_peer(j, k) && #[trigger] board_known(b, k, d);
            assert(k != i);
            assert(board_known(c, k, d));
        } else {
            assert(is_peer(i, j) && d == v);
            assert(is_peer(j, i));
            assert(board_known(c, i, d));
        }
    }
    assert forall|j: int| 0 <= j < 81 && !is_known((#[trigger] c[j]).value) implies exists|d: int|
        #[trigger] board_cand(c, j, d) by {
        assert(j != i);
        assert(!is_known(b[j].value));
        if is_peer(i, j) {
            let d = choose|d: int| d != v && #[trigger] board_cand(b, j, d);
            assert(board_cand(c, j, d));
        } else {
            let d = choose|d: int| #[trigger] board_cand(b, j, d);
            assert(board_cand(c, j, d));
        }
    }
}

/// The digit placed by a commit was still a candidate of its cell, so the
/// committed board refines the one it came from.
pub proof fn lemma_commit_refines(b: Seq<Node>, i: int, v: int)
    requires
        wf_cells(b),
        0 <= i < 81,
        1 <= v <= 9,
        board_cand(b, i, v),
    ensures
        refines(committed(b, i, v), b),
{
    lemma_committed_cells(b, i, v);
    let c = committed(b, i, v);
    assert forall|k: int| 0 <= k < 81 && is_known((#[trigger] b[k]).value) implies c[k] == b[k] by {
        assert(!is_known(b[i].value));
    }
}

/// `refines` is transitive.
pub proof fn lemma_refines_trans(b3: Seq<Node>, b2: Seq<Node>, b1: Seq<Node>)
    requires
        refines(b3, b2),
        refines(b2, b1),
    ensures
        refines(b3, b1),
{
    assert forall|i: int| 0 <= i < 81 && is_known((#[trigger] b1[i]).value) implies b3[i]
        == b1[i] by {
        assert(b2[i] == b1[i]);
    }
    assert forall|i: int, d: int| !is_known(b1[i].value) && #[trigger] board_known(b3, i, d)
        implies board_cand(b1, i, d) by {
        if is_known(b2[i].value) {
            assert(b3[i] == b2[i]);
            assert(board_known(b2, i, d));
        } else {
            assert(board_cand(b2, i, d));
        }
    }
}

/// After committing a digit that was still a candidate of its cell, no row,
/// column, or 3x3 square holds the same known digit twice, provided none
/// did before and the board's exclusions were up to date.
pub proof fn lemma_commit_keeps_no_dup(b: Seq<Node>, i: int, v: int)
    requires
        wf_cells(b),
        excluded(b),
        no_dup(b),
        0 <= i < 81,
        1 <= v <= 9,
        board_cand(b, i, v),
    ensures
        no_dup(committed(b, i, v)),
{
    lemma_committed_cells(b, i, v);
    let c = committed(b, i, v);
    assert forall|i2: int, j2: int, d: int|
        is_peer(i2, j2) && #[trigger] board_known(c, i2, d) implies !(#[trigger] board_known(
        c,
        j2,
        d,
    )) by {
        if i2 == i {
            if board_known(c, j2, d) {
                assert(board_known(b, j2, d));
                assert(is_peer(j2, i));
                assert(!board_cand(b, i, d));
            }
        } else if j2 == i {
            if board_known(c, j2, d) {
                assert(board_known(b, i2, d));
                assert(!board_cand(b, i, d));
            }
        } else {
            assert(board_known(b, i2, d));
        }
    }
}

/// In any solution, the digit of a cell the board still holds as unknown is
/// one of that cell's remaining candidates.
pub proof fn lemma_sol_candidate(b: Seq<Node>, s: Seq<Node>, i: int)
    requires
        wf_cells(b),
        complete(b),
        is_solution_of(s, b),
        0 <= i < 81,
        !is_known(b[i].value),
    ensures
        board_cand(b, i, known_value(s[i].value)),
{
    let d = known_value(s[i].value);
    assert(1 <= d <= 9);
    if !board_cand(b, i, d) {
        let j = choose|j: int| is_peer(i, j) && #[trigger] board_known(b, j, d);
        assert(board_known(s, j, d));
        assert(board_known(s, i, d));
        assert(is_peer(j, i));
        assert(false);
    }
}

/// The solutions of a committed board are exactly the solutions of the
/// board it came from that place the committed digit at the committed cell.
pub proof fn lemma_commit_sols(b: Seq<Node>, i: int, v: int, s: Seq<Node>)
    requires
        wf_cells(b),
        0 <= i < 81,
        1 <= v <= 9,
        !is_known(b[i].value),
    ensures
        is_solution_of(s, committed(b, i, v)) <==> (is_solution_of(s, b) && board_known(s, i, v)),
{
    lemma_committed_cells(b, i, v);
    let c = committed(b, i, v);
    if is_solution_of(s, b) && board_known(s, i, v) {
        assert forall|j: int, d: int| #[trigger] board_known(c, j, d) implies board_known(
            s,
            j,
            d,
        ) by {
            if j != i {
                assert(board_known(b, j, d));
            }
        }
    }
    if is_solution_of(s, c) {
        assert forall|j: int, d: int| #[trigger] board_known(b, j, d) implies board_known(
            s,
            j,
            d,
        ) by {
            assert(j != i);
            assert(board_known(c, j, d));
        }
        assert(board_known(c, i, v));
        assert(board_known(s, i, v));
    }
}

/// When a commit is refused because some unknown peer would lose its last
/// candidate, no solution places the refused digit at the refused cell.
pub proof fn lemma_commit_refused_no_sol(b: Seq<Node>, i: int, v: int, s: Seq<Node>)
    requires
        wf_cells(b),
        complete(b),
        0 <= i < 81,
        1 <= v <= 9,
        !commit_allowed(b, i, v),
        is_solution_of(s, b),
    ensures
        !board_known(s, i, v),
{
    if board_known(s, i, v) {
        let j = choose|j: int|
            #[trigger] is_peer(i, j) && !is_known(b[j].value) && !(exists|d: int|
                d != v && #[trigger] board_cand(b, j, d));
        lemma_sol_candidate(b, s, j);
        let d = known_value(s[j].value);
        assert(d == v);
        assert(board_known(s, j, v));
        assert(false);
    }
}

/// A board that already holds some cells as either untouched or at their
/// committed state refines the board the commit started from.
pub proof fn lemma_partial_commit_refines(b: Seq<Node>, post: Seq<Node>, i: int, v: int)
    requires
        wf_cells(b),
        0 <= i < 81,
        1 <= v <= 9,
        board_cand(b, i, v),
        post.len() == 81,
        post[i] == committed(b, i, v)[i],
        forall|k: int| 0 <= k < 81 && k != i ==> post[k] == b[k] || post[k] == committed(b, i, v)[k],
    ensures
        refines(post, b),
{
    lemma_committed_cells(b, i, v);
    let c = committed(b, i, v);
    assert forall|k: int| 0 <= k < 81 && is_known((#[trigger] b[k]).value) implies post[k]
        == b[k] by {
        assert(k != i);
        assert(c[k] == b[k]);
    }
    assert forall|k: int, d: int| #[trigger] board_cand(post, k, d) implies board_cand(b, k, d) by {
        if post[k] == c[k] {
            assert(board_cand(c, k, d));
        }
    }
    assert forall|k: int, d: int| !is_known(b[k].value) && #[trigger] board_known(post, k, d)
        implies board_cand(b, k, d) by {
        if k != i && post[k] == b[k] {
            assert(false);
        } else if k != i {
            assert(board_known(c, k, d));
            assert(is_known(b[k].value));
        } else {
            assert(d == v);
        }
    }
}

/// A fully known board is left exactly as it is by any later state.
pub proof fn lemma_full_refines_fixed(b1: Seq<Node>, b0: Seq<Node>)
    requires
        full_board(b0),
        refines(b1, b0),
    ensures
        b1 == b0,
{
    assert(b1 =~= b0);
}

/// A puzzle with a unique solution is solved deterministically: any two
/// solutions of the same board are the same full grid, so two successful
/// solves of the same initial fill render identically.
pub proof fn lemma_solve_deterministic(b: Seq<Node>, s1: Seq<Node>, s2: Seq<Node>)
    requires
        is_solution_of(s1, b),
        is_solution_of(s2, b),
        forall|t: Seq<Node>| is_solution_of(t, b) ==> t == s1,
    ensures
        s1 == s2,
{
}

/// A board whose cells are all known has no unknowns.
pub proof fn lemma_count_unknowns_all_known(b: Seq<Node>)
    requires
        forall|i: int| 0 <= i < b.len() ==> is_known((#[trigger] b[i]).value),
    ensures
        count_unknowns(b) == 0,
    decreases b.len(),
{
    if b.len() > 0 {
        lemma_count_unknowns_all_known(b.drop_last());
    }
}

/// Filling a fully recognized 81-character text marks exactly the digit
/// positions known, with their digits, and leaves the rest unknown.
proof fn lemma_fill_pattern(s: Seq<char>, k: int)
    requires
        s.len() == 81,
        forall|p: int| 0 <= p < 81 ==> is_digit_char(#[trigger] s[p]) || s[p] == '-',
        0 <= k <= 81,
        fill_state(s) is Ok,
    ensures
        fill_state(s.take(k)) is Ok,
        fill_state(s.take(k)) matches Ok(pr) ==> {
            &&& pr.1 == k
            &&& wf_cells(pr.0)
            &&& (forall|p: int|
                0 <= p < k ==> (is_known((#[trigger] pr.0[p]).value) <==> is_digit_char(s[p])))
            &&& (forall|p: int|
                0 <= p < k && is_digit_char(s[p]) ==> known_value((#[trigger] pr.0[p]).value)
                    == digit_of(s[p]))
            &&& (forall|p: int| k <= p < 81 ==> !is_known((#[trigger] pr.0[p]).value))
        },
    decreases k,
{
    if !(fill_state(s.take(k)) is Ok) {
        lemma_fill_err_extends(s, k);
        assert(false);
    }
    if k == 0 {
        assert(s.take(0) =~= Seq::<char>::empty());
        assert(wf_cells(init_cells()));
    } else {
        lemma_fill_pattern(s, k - 1);
        assert(s.take(k).drop_last() =~= s.take(k - 1));
        assert(s.take(k).last() == s[k - 1]);
        let pr = match fill_state(s.take(k - 1)) {
            Ok(pr) => pr,
            Err(_) => arbitrary(),
        };
        let c = s[k - 1];
        if is_digit_char(c) {
            lemma_committed_cells(pr.0, k - 1, digit_of(c));
        }
    }
}

/// Filling a fully recognized 81-character text whose digits never repeat
/// within a row, column, or 3x3 square yields a board with no duplicated
/// known digit: exactly the state on which the solver's success contract
/// promises a rendered solution.
pub proof fn lemma_fill_consistent_no_dup(s: Seq<char>)
    requires
        s.len() == 81,
        forall|p: int| 0 <= p < 81 ==> is_digit_char(#[trigger] s[p]) || s[p] == '-',
        fill_state(s) is Ok,
        forall|p: int, q: int|
            #[trigger] is_peer(p, q) && is_digit_char(s[p]) && is_digit_char(s[q]) ==> digit_of(
                s[p],
            ) != digit_of(s[q]),
    ensures
        no_dup(fill_cells(s)),
{
    lemma_fill_pattern(s, 81);
    assert(s.take(81) =~= s);
    let b = fill_cells(s);
    assert forall|i: int, j: int, d: int|
        is_peer(i, j) && #[trigger] board_known(b, i, d) implies !(#[trigger] board_known(
        b,
        j,
        d,
    )) by {
        assert(is_digit_char(s[i]));
        if board_known(b, j, d) {
            assert(is_digit_char(s[j]));
            assert(digit_of(s[i]) == d && digit_of(s[j]) == d);
        }
    }
}

/// Rendering the board filled from a valid 81-character text of digits and
/// dashes gives back exactly that text.
pub proof fn lemma_fill_render_round_trip(s: Seq<char>)
    requires
        s.len() == 81,
        forall|p: int| 0 <= p < 81 ==> is_digit_char(#[trigger] s[p]) || s[p] == '-',
        fill_state(s) is Ok,
    ensures
        render_spec(fill_cells(s)) == s,
{
    lemma_fill_pattern(s, 81);
    assert(s.take(81) =~= s);
    let b = fill_cells(s);
    assert forall|p: int| 0 <= p < 81 implies render_spec(b)[p] == s[p] by {
        if is_digit_char(s[p]) {
            assert(known_value(b[p].value) == digit_of(s[p]));
            assert(1 <= known_value(b[p].value) <= 9);
        }
    }
    assert(render_spec(b) =~= s);
}

/// `refines` is reflexive on well-formed boards.
pub proof fn lemma_refines_refl(b: Seq<Node>)
    requires
        b.len() == 81,
    ensures
        refines(b, b),
{
}

} // verus!

//! The solving engine: exhaustive forced-move propagation, falling back to
//! a backtracking search over the least-constrained cell.

use vstd::prelude::*;

use crate::board::SudokuBoard;
use crate::board::SudokuError;
use crate::board::SudokuResult;
use crate::board::board_cand;
use crate::board::board_known;
use crate::board::cell_index;
use crate::board::commit_allowed;
use crate::board::committed;
use crate::board::full_board;
use crate::board::is_solution_of;
use crate::board::no_dup;
use crate::board::refines;
use crate::cells::BoxValue;
use crate::cells::Node;
use crate::cells::cand_count;
use crate::cells::cand_seq;
use crate::cells::count_candidates;
use crate::cells::first_cand;
use crate::cells::is_known;
use crate::cells::known_value;
use crate::cells::lemma_count_true_two;
use crate::laws::lemma_commit_keeps_no_dup;
use crate::laws::lemma_commit_preserves_inv;
use crate::laws::lemma_commit_refines;
use crate::laws::lemma_commit_refused_no_sol;
use crate::laws::lemma_commit_sols;
use crate::laws::lemma_count_unknowns_all_known;
use crate::laws::lemma_count_unknowns_zero;
use crate::laws::lemma_partial_commit_refines;
use crate::laws::lemma_refines_refl;
use crate::laws::lemma_refines_trans;
use crate::laws::lemma_sol_candidate;

verus! {

impl SudokuBoard {
    /// Drive the board to fully known by committing forced moves and, when
    /// none is left, branching over the candidates of the cell with the
    /// fewest of them; succeed exactly when the board has a solution.
    #[verifier::loop_isolation(false)]
    #[verifier::rlimit(60)]
    pub fn solve(&mut self) -> (r: SudokuResult)
        requires
            old(self).inv(),
        ensures
            r is Ok ==> final(self).inv() && final(self).unknowns() == 0 && full_board(
                final(self)@,
            ) && refines(final(self)@, old(self)@) && (no_dup(old(self)@) ==> is_solution_of(
                final(self)@,
                old(self)@,
            )),
            r is Err ==> forall|s: Seq<Node>| !is_solution_of(s, old(self)@),
            r is Err ==> refines(final(self)@, old(self)@),
            old(self).unknowns() == 0 ==> r is Ok && final(self)@ == old(self)@,
        decreases old(self).unknowns(),
    {
        proof {
            lemma_refines_refl(self@);
        }
        while self.unknown_values > 0
            invariant
                self.inv(),
                refines(self@, old(self)@),
                self.unknowns() <= old(self).unknowns(),
                no_dup(old(self)@) ==> no_dup(self@),
                forall|s: Seq<Node>|
                    is_solution_of(s, self@) == is_solution_of(s, old(self)@),
                old(self).unknowns() == 0 ==> self@ == old(self)@,
            decreases self.unknowns(),
        {
            // Forced-move scan: the first cell with exactly one candidate.
            let mut j: usize = 0;
            let mut found: usize = 81;
            while j < 81
                invariant
                    j <= 81,
                    found == 81 || (found < 81 && !is_known(self@[found as int].value)
                        && cand_count(self@[found as int].value) == 1),
                decreases 81 - j,
            {
                if found == 81 {
                    match self.cells[j].value {
                        BoxValue::Unknown(sarr) => {
                            let cnt = count_candidates(&sarr);
                            if cnt == 1 {
                                found = j;
                            }
                        },
                        BoxValue::Known(_) => {},
                    }
                }
                j += 1;
            }
            if found < 81 {
                let rr = self.cells[found].row;
                let cc = self.cells[found].col;
                proof {
                    vstd::arithmetic::div_mod::lemma_fundamental_div_mod(found as int, 9);
                    assert(cell_index(rr as int, cc as int) == found as int);
                }
                let ghost pre = *self;
                let res = self.mark_single_option(rr, cc);
                let ghost i = found as int;
                let ghost b0 = pre@;
                let ghost v = first_cand(cand_seq(b0[i].value));
                proof {
                    assert(board_cand(b0, i, v));
                    assert forall|s: Seq<Node>| is_solution_of(s, b0) implies board_known(
                        s,
                        i,
                        v,
                    ) by {
                        lemma_sol_candidate(b0, s, i);
                        let d = known_value(s[i].value);
                        if d != v {
                            lemma_count_true_two(cand_seq(b0[i].value), d - 1, v - 1);
                        }
                    }
                }
                match res {
                    Ok(()) => {
                        proof {
                            assert(commit_allowed(b0, i, v));
                            assert(self@ == committed(b0, i, v));
                            lemma_commit_preserves_inv(b0, i, v);
                            lemma_commit_refines(b0, i, v);
                            lemma_refines_trans(self@, b0, old(self)@);
                            if no_dup(old(self)@) {
                                lemma_commit_keeps_no_dup(b0, i, v);
                            }
                            assert forall|s: Seq<Node>|
                                is_solution_of(s, self@) == is_solution_of(s, b0) by {
                                lemma_commit_sols(b0, i, v, s);
                            }
                        }
                    },
                    Err(e) => {
                        proof {
                            assert(!commit_allowed(b0, i, v));
                            assert forall|s: Seq<Node>| !is_solution_of(s, old(self)@) by {
                                if is_solution_of(s, old(self)@) {
                                    assert(is_solution_of(s, b0));
                                    lemma_commit_refused_no_sol(b0, i, v, s);
                                }
                            }
                            lemma_partial_commit_refines(b0, self@, i, v);
                            lemma_refines_trans(self@, b0, old(self)@);
                        }
                        return Err(e);
                    },
                }
            } else {
                // No forced move: pick the unknown cell with the fewest
                // candidates (first such cell in row-major order).
                let mut j2: usize = 0;
                let mut best: usize = 81;
                let mut best_cnt: u32 = 10;
                while j2 < 81
                    invariant
                        j2 <= 81,
                        best <= 81,
                        best_cnt <= 10,
                        best == 81 ==> best_cnt == 10,
                        best == 81 ==> forall|k: int|
                            0 <= k < j2 ==> is_known((#[trigger] self@[k]).value),
                        best < 81 ==> !is_known(self@[best as int].value) && cand_count(
                            self@[best as int].value,
                        ) == best_cnt,
                    decreases 81 - j2,
                {
                    match self.cells[j2].value {
                        BoxValue::Unknown(sarr) => {
                            let cnt = count_candidates(&sarr);
                            if cnt < best_cnt {
                                best = j2;
                                best_cnt = cnt;
                            }
                        },
                        BoxValue::Known(_) => {},
                    }
                    j2 += 1;
                }
                if best == 81 {
                    proof {
                        lemma_count_unknowns_all_known(self@);
                        assert(false);
                    }
                    return Err(SudokuError::Unknown);
                }
                let r0 = self.cells[best].row;
                let c0 = self.cells[best].col;
                proof {
                    vstd::arithmetic::div_mod::lemma_fundamental_div_mod(best as int, 9);
                    assert(cell_index(r0 as int, c0 as int) == best as int);
                }
                let ghost bloop = self@;
                let ghost presnap = *self;
                let mut v: i32 = 1;
                while v <= 9
                    invariant
                        1 <= v <= 10,
                        *self == presnap,
                        forall|s: Seq<Node>|
                            is_solution_of(s, bloop) ==> known_value(s[best as int].value)
                                >= v,
                    decreases 10 - v,
                {
                    let cell = self.cells[best];
                    let mut has_v = false;
                    match cell.value {
                        BoxValue::Unknown(sarr) => {
                            has_v = sarr[(v - 1) as usize];
                        },
                        BoxValue::Known(_) => {},
                    }
                    if has_v {
                        proof {
                            assert(board_cand(bloop, best as int, v as int));
                        }
                        let mut alt_board = self.clone();
                        let cres = alt_board.mark_as_known(r0, c0, v);
                        match cres {
                            Ok(()) => {
                                proof {
                                    assert(commit_allowed(bloop, best as int, v as int));
                                    assert(alt_board@ == committed(bloop, best as int, v as int));
                                    lemma_commit_preserves_inv(bloop, best as int, v as int);
                                }
                                let sres = alt_board.solve();
                                match sres {
                                    Ok(()) => {
                                        proof {
                                            lemma_commit_refines(bloop, best as int, v as int);
                                            lemma_refines_trans(
                                                alt_board@,
                                                committed(bloop, best as int, v as int),
                                                bloop,
                                            );
                                            lemma_refines_trans(alt_board@, bloop, old(self)@);
                                            if no_dup(old(self)@) {
                                                lemma_commit_keeps_no_dup(
                                                    bloop,
                                                    best as int,
                                                    v as int,
                                                );
                                            }
                                        }
                                        self.cells = alt_board.cells;
                                        self.unknown_values = alt_board.unknown_values;
                                        return Ok(());
                                    },
                                    Err(_) => {
                                        proof {
                                            assert forall|s: Seq<Node>|
                                                is_solution_of(s, bloop) implies known_value(
                                                s[best as int].value,
                                            ) >= v + 1 by {
                                                if known_value(s[best as int].value) == v as int {
                                                    assert(board_known(s, best as int, v as int));
                                                    lemma_commit_sols(
                                                        bloop,
                                                        best as int,
                                                        v as int,
                                                        s,
                                                    );
                                                }
                                            }
                                        }
                                    },
                                }
                            },
                            Err(_) => {
                                proof {
                                    assert(!commit_allowed(bloop, best as int, v as int));
                                    assert forall|s: Seq<Node>|
                                        is_solution_of(s, bloop) implies known_value(
                                        s[best as int].value,
                                    ) >= v + 1 by {
                                        if known_value(s[best as int].value) == v as int {
                                            assert(board_known(s, best as int, v as int));
                                            lemma_commit_refused_no_sol(
                                                bloop,
                                                best as int,
                                                v as int,
                                                s,
                                            );
                                        }
                                    }
                                }
                            },
                        }
                    } else {
                        proof {
                            assert forall|s: Seq<Node>| is_solution_of(s, bloop)
                                implies known_value(s[best as int].value) >= v + 1 by {
                                lemma_sol_candidate(bloop, s, best as int);
                                if known_value(s[best as int].value) == v as int {
                                    assert(board_cand(bloop, best as int, v as int));
                                }
                            }
                        }
                    }
                    v = v + 1;
                }
                proof {
                    assert forall|s: Seq<Node>| !is_solution_of(s, old(self)@) by {
                        if is_solution_of(s, old(self)@) {
                            assert(is_solution_of(s, bloop));
                            assert(known_value(s[best as int].value) <= 9);
                        }
                    }
                }
                return Err(SudokuError::NotSolvable);
            }
        }
        proof {
            lemma_count_unknowns_zero(self@);
            if no_dup(old(self)@) {
                assert forall|i2: int, d: int| #[trigger] board_known(old(self)@, i2, d)
                    implies board_known(self@, i2, d) by {
                    assert(self@[i2] == old(self)@[i2]);
                }
            }
        }
        Ok(())
    }
}

} // verus!

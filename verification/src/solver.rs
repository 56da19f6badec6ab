//! The solve loop.
//!
//! One pass applies every elimination rule across all 27 units. The loop
//! repeats passes until the grid is fully determined (`Solved`), a pass
//! changes nothing (`Stalled`), or a unit holds a repeated determined digit
//! (`Contradiction`). Candidate sets shrink monotonically, so the total
//! candidate count is a strictly decreasing measure and the loop terminates.

use vstd::prelude::*;
use crate::board::{
    Board, grid_narrows, grid_consistent, grid_all_known, grid_measure, grid_wf, solution_of,
    lemma_grid_narrows_refl, lemma_grid_narrows_trans, lemma_grid_changed_stays,
    lemma_grid_measure_lt, lemma_unknown_zero,
};
use crate::rules::{
    handle_collection, handle_pairs, handle_hidden_tripples, handle_pointing, handle_blocking_row,
    handle_blocking_col, collection_applies, hidden_pair_applies, hidden_triple_applies,
    any_rule_applies,
};

verus! {

/// How a solve run ended.
#[derive(Clone, Copy, Debug, PartialEq, Eq, Structural)]
pub enum SolveOutcome {
    /// Every cell is determined and no unit holds a repeated digit.
    Solved,
    /// A full pass changed nothing, with cells still undetermined: the rule
    /// set cannot finish this puzzle.
    Stalled,
    /// Some unit holds a repeated determined digit: the grid cannot be
    /// completed from its current state.
    Contradiction,
}

/// One full rule pass: basic elimination with singles, hidden pairs and
/// hidden triples on each of the 27 units, then pointing pairs and box-line
/// reduction over the whole board. Reports whether anything changed, and
/// fires whenever any rule's pattern is present in the grid it was handed.
#[verifier::loop_isolation(false)]
pub fn full_pass(board: &mut Board) -> (changed: bool)
    requires
        old(board).wf(),
    ensures
        final(board).wf(),
        grid_narrows(old(board)@, final(board)@),
        changed == (final(board)@ != old(board)@),
        changed == any_rule_applies(old(board)@),
        forall|s: Seq<u8>|
            #[trigger] solution_of(old(board)@, s) ==> solution_of(final(board)@, s),
{
    let ghost g0 = board@;
    proof {
        lemma_grid_narrows_refl(g0);
    }
    let mut changed = false;
    let mut u: usize = 0;
    while u < 27
        invariant
            u <= 27,
            board.wf(),
            grid_narrows(g0, board@),
            changed == (board@ != g0),
            forall|s: Seq<u8>| #[trigger] solution_of(g0, s) ==> solution_of(board@, s),
            !changed ==> forall|u2: int|
                0 <= u2 < u ==> !(#[trigger] collection_applies(g0, u2)),
            !changed ==> forall|u2: int, a: u8, b: u8|
                0 <= u2 < u ==> !(#[trigger] hidden_pair_applies(g0, u2, a, b)),
            !changed ==> forall|u2: int, a: u8, b: u8, c: u8|
                0 <= u2 < u ==> !(#[trigger] hidden_triple_applies(g0, u2, a, b, c)),
            changed ==> any_rule_applies(g0),
        decreases 27 - u,
    {
        let ghost at_entry = board@;
        let ghost pre = board@;
        let r = handle_collection(board, u);
        proof {
            if changed {
                lemma_grid_changed_stays(g0, pre, board@);
            }
            lemma_grid_narrows_trans(g0, pre, board@);
        }
        changed = changed || r;

        let ghost pre = board@;
        let r = handle_pairs(board, u);
        proof {
            if changed {
                lemma_grid_changed_stays(g0, pre, board@);
            }
            lemma_grid_narrows_trans(g0, pre, board@);
        }
        changed = changed || r;

        let ghost pre = board@;
        let r = handle_hidden_tripples(board, u);
        proof {
            if changed {
                lemma_grid_changed_stays(g0, pre, board@);
            }
            lemma_grid_narrows_trans(g0, pre, board@);
        }
        changed = changed || r;

        proof {
            if !changed {
                assert(at_entry == g0);
                assert(!collection_applies(g0, u as int));
                assert(forall|a: u8, b: u8| !(#[trigger] hidden_pair_applies(g0, u as int, a, b)));
                assert(forall|a: u8, b: u8, c: u8|
                    !(#[trigger] hidden_triple_applies(g0, u as int, a, b, c)));
            }
        }
        u = u + 1;
    }

    let ghost pre = board@;
    let r = handle_pointing(board);
    proof {
        if changed {
            lemma_grid_changed_stays(g0, pre, board@);
        }
        lemma_grid_narrows_trans(g0, pre, board@);
    }
    changed = changed || r;

    let ghost pre = board@;
    let r = handle_blocking_row(board);
    proof {
        if changed {
            lemma_grid_changed_stays(g0, pre, board@);
        }
        lemma_grid_narrows_trans(g0, pre, board@);
    }
    changed = changed || r;

    let ghost pre = board@;
    let r = handle_blocking_col(board);
    proof {
        if changed {
            lemma_grid_changed_stays(g0, pre, board@);
        }
        lemma_grid_narrows_trans(g0, pre, board@);
    }
    changed = changed || r;

    changed
}

/// Run full passes to a fixpoint. The outcome tells the final grid's state
/// exactly: `Contradiction` when some unit repeats a determined digit,
/// `Solved` when the grid is consistent and fully determined, `Stalled`
/// when it is consistent but the rules stopped making progress.
#[verifier::loop_isolation(false)]
pub fn solve(board: &mut Board) -> (outcome: SolveOutcome)
    requires
        old(board).wf(),
    ensures
        final(board).wf(),
        grid_narrows(old(board)@, final(board)@),
        (outcome == SolveOutcome::Contradiction) <==> !grid_consistent(final(board)@),
        (outcome == SolveOutcome::Solved) <==> (grid_consistent(final(board)@) && grid_all_known(
            final(board)@,
        )),
        (outcome == SolveOutcome::Stalled) <==> (grid_consistent(final(board)@)
            && !grid_all_known(final(board)@)),
        // A cell left undetermined — in particular one stripped of every
        // candidate — is never passed off as solved: the run reports Stalled
        // or Contradiction instead.
        (exists|k: int| 0 <= k < 81 && (#[trigger] final(board)@[k]) is Possible) ==> (outcome
            == SolveOutcome::Stalled || outcome == SolveOutcome::Contradiction),
        // A stall is a genuine fixpoint: no rule's pattern is left anywhere
        // in the final grid, so by `full_pass`'s own contract one more pass
        // over it reports no change and leaves it as it is.
        outcome == SolveOutcome::Stalled ==> !any_rule_applies(final(board)@),
        // No deduction ever loses a solution: every valid completion of the
        // input grid is still a valid completion of the final grid.
        forall|s: Seq<u8>|
            #[trigger] solution_of(old(board)@, s) ==> solution_of(final(board)@, s),
{
    let ghost g0 = board@;
    proof {
        lemma_grid_narrows_refl(g0);
    }
    loop
        invariant
            board.wf(),
            grid_narrows(g0, board@),
            forall|s: Seq<u8>| #[trigger] solution_of(g0, s) ==> solution_of(board@, s),
        decreases grid_measure(board@),
    {
        let ghost pre = board@;
        let changed = full_pass(board);
        proof {
            lemma_grid_narrows_trans(g0, pre, board@);
        }
        if !board.is_correct() {
            return SolveOutcome::Contradiction;
        }
        if board.num_unsolved() == 0 {
            proof {
                lemma_unknown_zero(board@, 81);
            }
            return SolveOutcome::Solved;
        }
        proof {
            lemma_unknown_zero(board@, 81);
        }
        if !changed {
            return SolveOutcome::Stalled;
        }
        proof {
            lemma_grid_measure_lt(pre, board@);
        }
    }
}

} // verus!

//! The elimination rules.
//!
//! Each rule takes the board and (for the unit-scoped rules) a unit index,
//! narrows candidate sets or promotes cells, and reports whether it changed
//! the grid. Every rule guarantees:
//!
//! - the grid stays well-formed;
//! - the new grid *narrows* the old one (candidates only shrink, determined
//!   cells are kept, promotions take one of the old candidates);
//! - the returned flag is true exactly when the grid changed;
//! - the grid changes exactly when the rule's pattern — spelled out by the
//!   rule's `..._applies` predicate — is present in the grid it was handed;
//! - every valid completion of the grid it was handed is still a valid
//!   completion afterwards: no rule ever strikes a digit a solution uses;
//! - for the unit-scoped rules, cells outside the unit are untouched.
//!
//! The per-pattern soundness lemmas at the end of the module carry the
//! completion-preservation argument for each kind of strike.

use vstd::prelude::*;
use crate::mask::{
    mask_has, mask_wf, mask_sub, mask_card, mask_empty, mask_test, mask_set, mask_clear, mask_and,
    mask_diff, mask_count, lemma_count_limited2, lemma_count_limited3, lemma_card_one_unique,
};
use crate::board::{
    Cell, Board, cell_wf, cell_has, cell_val, cell_mask, cell_narrows, grid_wf, grid_narrows,
    unit_row,
    unit_col, unit_idx, unit_cell_pos, lemma_unit_bounds, lemma_unit_inj, lemma_grid_narrows_refl,
    lemma_grid_narrows_trans, lemma_grid_narrows_sandwich, lemma_grid_changed_stays,
    lemma_grid_update_narrows, solution_of, lemma_solution_unit_onto, lemma_solution_update,
};

verus! {

/// Grid index `k` belongs to unit `u`.
pub open spec fn unit_covers(u: int, k: int) -> bool {
    exists|i: int| 0 <= i < 9 && k == #[trigger] unit_idx(u, i)
}

/// Digit `d` is determined somewhere in unit `u`.
pub open spec fn unit_has_known(g: Seq<Cell>, u: int, d: u8) -> bool {
    exists|i: int| 0 <= i < 9 && #[trigger] g[unit_idx(u, i)] == Cell::Known(d)
}

/// The basic elimination has work at cell `i` of unit `u`: the cell still
/// carries candidate `d` though `d` is already determined in the unit.
pub open spec fn basic_elim_at(g: Seq<Cell>, u: int, i: int, d: u8) -> bool {
    cell_has(g[unit_idx(u, i)], d as u16) && unit_has_known(g, u, d)
}

/// The basic elimination has work somewhere in unit `u`.
pub open spec fn basic_elim_applies(g: Seq<Cell>, u: int) -> bool {
    exists|i: int, d: u8| 0 <= i < 9 && 1 <= d <= 9 && #[trigger] basic_elim_at(g, u, i, d)
}

/// Cell `i` of unit `u` is undetermined with a single candidate left.
pub open spec fn naked_single_at(g: Seq<Cell>, u: int, i: int) -> bool {
    g[unit_idx(u, i)] is Possible && mask_card(cell_mask(g[unit_idx(u, i)])) == 1
}

/// Number of cells among the first `n` of unit `u` still listing `d`.
pub open spec fn single_count(g: Seq<Cell>, u: int, d: u8, n: int) -> nat
    decreases n,
{
    if n <= 0 {
        0
    } else {
        single_count(g, u, d, n - 1) + (if cell_has(g[unit_idx(u, n - 1)], d as u16) {
            1nat
        } else {
            0nat
        })
    }
}

/// The hidden-single rule fires on unit `u` for digit `d`: the digit is not
/// determined in the unit and exactly one cell still lists it.
pub open spec fn hidden_single_applies(g: Seq<Cell>, u: int, d: u8) -> bool {
    1 <= d <= 9 && !unit_has_known(g, u, d) && single_count(g, u, d, 9) == 1
}

/// Any of the patterns that `handle_collection` acts on is present in unit
/// `u`: a strikeable determined digit, an unpromoted naked single, or a
/// hidden single.
pub open spec fn collection_applies(g: Seq<Cell>, u: int) -> bool {
    ||| basic_elim_applies(g, u)
    ||| exists|i: int| 0 <= i < 9 && #[trigger] naked_single_at(g, u, i)
    ||| exists|d: u8| 1 <= d <= 9 && #[trigger] hidden_single_applies(g, u, d)
}

/// The mask of digits determined somewhere in unit `u`.
#[verifier::loop_isolation(false)]
fn unit_known_mask(board: &Board, u: usize) -> (present: u16)
    requires
        board.wf(),
        u < 27,
    ensures
        mask_wf(present),
        forall|d: u16|
            #[trigger] mask_has(present, d) <==> (1 <= d <= 9 && exists|i: int|
                0 <= i < 9 && board@[unit_idx(u as int, i)] == Cell::Known(d as u8)),
{
    let mut present: u16 = mask_empty();
    let mut i: usize = 0;
    while i < 9
        invariant
            i <= 9,
            mask_wf(present),
            forall|d: u16|
                #[trigger] mask_has(present, d) <==> (1 <= d <= 9 && exists|i2: int|
                    0 <= i2 < i && board@[unit_idx(u as int, i2)] == Cell::Known(d as u8)),
        decreases 9 - i,
    {
        let (r, c) = unit_cell_pos(u, i);
        proof {
            lemma_unit_bounds(u as int, i as int);
        }
        match board.get(r, c) {
            Cell::Known(v) => {
                proof {
                    assert(cell_wf(board@[unit_idx(u as int, i as int)]));
                }
                present = mask_set(present, v);
            },
            Cell::Possible(_) => {},
        }
        i = i + 1;
    }
    present
}

/// The digits 1..=9 not in `present`, ascending.
#[verifier::loop_isolation(false)]
pub fn missing_digits(present: u16) -> (r: Vec<u8>)
    ensures
        forall|t: int|
            0 <= t < r@.len() ==> 1 <= #[trigger] r@[t] <= 9 && !mask_has(present, r@[t] as u16),
        forall|t1: int, t2: int| 0 <= t1 < t2 < r@.len() ==> r@[t1] < r@[t2],
        forall|d: u8|
            1 <= d <= 9 && !(#[trigger] mask_has(present, d as u16)) ==> exists|t: int|
                0 <= t < r@.len() && r@[t] == d,
{
    let mut r: Vec<u8> = Vec::new();
    let mut d: u8 = 1;
    while d <= 9
        invariant
            1 <= d <= 10,
            forall|t: int|
                0 <= t < r@.len() ==> 1 <= #[trigger] r@[t] < d && !mask_has(present, r@[t] as u16),
            forall|t1: int, t2: int| 0 <= t1 < t2 < r@.len() ==> r@[t1] < r@[t2],
            forall|d2: u8|
                1 <= d2 < d && !(#[trigger] mask_has(present, d2 as u16)) ==> exists|t: int|
                    0 <= t < r@.len() && r@[t] == d2,
        decreases 10 - d,
    {
        if !mask_test(present, d) {
            let ghost rold = r@;
            r.push(d);
            proof {
                assert(r@[rold.len() as int] == d);
                assert forall|d2: u8|
                    1 <= d2 < d + 1 && !(#[trigger] mask_has(present, d2 as u16)) implies exists|t: int|
                    0 <= t < r@.len() && r@[t] == d2 by {
                    if d2 == d {
                        assert(r@[rold.len() as int] == d2);
                    } else {
                        let t = choose|t: int| 0 <= t < rold.len() && rold[t] == d2;
                        assert(r@[t] == d2);
                    }
                }
            }
        }
        d = d + 1;
    }
    r
}

/// All unordered pairs of the given ascending digit list, each pair
/// ascending, in a deterministic order.
#[verifier::loop_isolation(false)]
pub fn make_pairs_from_valid_options(options: &Vec<u8>) -> (r: Vec<(u8, u8)>)
    requires
        forall|t1: int, t2: int| 0 <= t1 < t2 < options@.len() ==> options@[t1] < options@[t2],
        forall|t: int| 0 <= t < options@.len() ==> 1 <= #[trigger] options@[t] <= 9,
    ensures
        forall|t: int|
            0 <= t < r@.len() ==> 1 <= (#[trigger] r@[t]).0 && r@[t].0 < r@[t].1 && r@[t].1 <= 9,
        forall|t: int|
            0 <= t < r@.len() ==> options@.contains((#[trigger] r@[t]).0) && options@.contains(
                r@[t].1,
            ),
        forall|t1: int, t2: int|
            #![trigger options@[t1], options@[t2]]
            0 <= t1 < t2 < options@.len() ==> r@.contains((options@[t1], options@[t2])),
        2 * r@.len() == options@.len() * (options@.len() - 1),
{
    let mut r: Vec<(u8, u8)> = Vec::new();
    let n = options.len();
    let mut t1: usize = 0;
    while t1 < n
        invariant
            t1 <= n,
            2 * r@.len() == t1 * (2 * n - t1 - 1),
            forall|t: int|
                0 <= t < r@.len() ==> 1 <= (#[trigger] r@[t]).0 && r@[t].0 < r@[t].1 && r@[t].1
                    <= 9,
            forall|t: int|
                0 <= t < r@.len() ==> options@.contains((#[trigger] r@[t]).0) && options@.contains(
                    r@[t].1,
                ),
            forall|u1: int, u2: int|
                #![trigger options@[u1], options@[u2]]
                0 <= u1 < u2 < n && u1 < t1 ==> r@.contains((options@[u1], options@[u2])),
        decreases n - t1,
    {
        let mut t2: usize = t1 + 1;
        while t2 < n
            invariant
                t1 < n,
                t1 + 1 <= t2 <= n,
                2 * r@.len() == t1 * (2 * n - t1 - 1) + 2 * (t2 - t1 - 1),
                forall|t: int|
                    0 <= t < r@.len() ==> 1 <= (#[trigger] r@[t]).0 && r@[t].0 < r@[t].1 && r@[t].1
                        <= 9,
                forall|t: int|
                    0 <= t < r@.len() ==> options@.contains((#[trigger] r@[t]).0)
                        && options@.contains(r@[t].1),
                forall|u1: int, u2: int|
                    #![trigger options@[u1], options@[u2]]
                    0 <= u1 < u2 < n && u1 < t1 ==> r@.contains((options@[u1], options@[u2])),
                forall|u2: int|
                    t1 < u2 < t2 ==> r@.contains((options@[t1 as int], #[trigger] options@[u2])),
            decreases n - t2,
        {
            let a = options[t1];
            let b = options[t2];
            let ghost rold = r@;
            r.push((a, b));
            proof {
                assert(r@[rold.len() as int] == (a, b));
                assert(options@.contains(a) && options@.contains(b)) by {
                    assert(options@[t1 as int] == a && options@[t2 as int] == b);
                }
                assert forall|p: (u8, u8)| rold.contains(p) implies r@.contains(p) by {
                    let t = choose|t: int| 0 <= t < rold.len() && rold[t] == p;
                    assert(r@[t] == p);
                }
                assert(r@.contains((options@[t1 as int], options@[t2 as int])));
            }
            t2 = t2 + 1;
        }
        proof {
            assert(2 * r@.len() as int == (t1 + 1) * (2 * (n as int) - t1 - 2))
                by (nonlinear_arith)
                requires
                    2 * r@.len() as int == t1 as int * (2 * (n as int) - t1 - 1) + 2 * (n as int
                        - t1 - 1),
                    t1 < n,
            ;
        }
        t1 = t1 + 1;
    }
    r
}

/// All unordered triples of the given ascending digit list, each triple
/// ascending, in a deterministic order.
#[verifier::loop_isolation(false)]
pub fn make_tripples_from_valid_options(options: &Vec<u8>) -> (r: Vec<(u8, u8, u8)>)
    requires
        forall|t1: int, t2: int| 0 <= t1 < t2 < options@.len() ==> options@[t1] < options@[t2],
        forall|t: int| 0 <= t < options@.len() ==> 1 <= #[trigger] options@[t] <= 9,
    ensures
        forall|t: int|
            0 <= t < r@.len() ==> 1 <= (#[trigger] r@[t]).0 && r@[t].0 < r@[t].1 && r@[t].1
                < r@[t].2 && r@[t].2 <= 9,
        forall|t: int|
            0 <= t < r@.len() ==> options@.contains((#[trigger] r@[t]).0) && options@.contains(
                r@[t].1,
            ) && options@.contains(r@[t].2),
        forall|t1: int, t2: int, t3: int|
            #![trigger options@[t1], options@[t2], options@[t3]]
            0 <= t1 < t2 < t3 < options@.len() ==> r@.contains(
                (options@[t1], options@[t2], options@[t3]),
            ),
        6 * r@.len() == options@.len() * (options@.len() - 1) * (options@.len() - 2),
{
    let mut r: Vec<(u8, u8, u8)> = Vec::new();
    let n = options.len();
    proof {
        let ni = n as int;
        assert(ni * (ni - 1) * (ni - 2) - (ni - 0) * (ni - 0 - 1) * (ni - 0 - 2) == 0)
            by (nonlinear_arith);
    }
    let mut t1: usize = 0;
    while t1 < n
        invariant
            t1 <= n,
            6 * r@.len() == n * (n - 1) * (n - 2) - (n - t1) * (n - t1 - 1) * (n - t1 - 2),
            forall|t: int|
                0 <= t < r@.len() ==> 1 <= (#[trigger] r@[t]).0 && r@[t].0 < r@[t].1 && r@[t].1
                    < r@[t].2 && r@[t].2 <= 9,
            forall|t: int|
                0 <= t < r@.len() ==> options@.contains((#[trigger] r@[t]).0) && options@.contains(
                    r@[t].1,
                ) && options@.contains(r@[t].2),
            forall|u1: int, u2: int, u3: int|
                #![trigger options@[u1], options@[u2], options@[u3]]
                0 <= u1 < u2 < u3 < n && u1 < t1 ==> r@.contains(
                    (options@[u1], options@[u2], options@[u3]),
                ),
        decreases n - t1,
    {
        let mut t2: usize = t1 + 1;
        while t2 < n
            invariant
                t1 < n,
                t1 + 1 <= t2 <= n,
                6 * r@.len() == n * (n - 1) * (n - 2) - (n - t1) * (n - t1 - 1) * (n - t1 - 2) + 3
                    * ((n - t1 - 1) * (n - t1 - 2) - (n - t2) * (n - t2 - 1)),
                forall|t: int|
                    0 <= t < r@.len() ==> 1 <= (#[trigger] r@[t]).0 && r@[t].0 < r@[t].1 && r@[t].1
                        < r@[t].2 && r@[t].2 <= 9,
                forall|t: int|
                    0 <= t < r@.len() ==> options@.contains((#[trigger] r@[t]).0)
                        && options@.contains(r@[t].1) && options@.contains(r@[t].2),
                forall|u1: int, u2: int, u3: int|
                    #![trigger options@[u1], options@[u2], options@[u3]]
                    0 <= u1 < u2 < u3 < n && u1 < t1 ==> r@.contains(
                        (options@[u1], options@[u2], options@[u3]),
                    ),
                forall|u2: int, u3: int|
                    #![trigger options@[u2], options@[u3]]
                    t1 < u2 < u3 < n && u2 < t2 ==> r@.contains(
                        (options@[t1 as int], options@[u2], options@[u3]),
                    ),
            decreases n - t2,
        {
            let mut t3: usize = t2 + 1;
            while t3 < n
                invariant
                    t1 < t2 < n,
                    t2 + 1 <= t3 <= n,
                    6 * r@.len() == n * (n - 1) * (n - 2) - (n - t1) * (n - t1 - 1) * (n - t1 - 2)
                        + 3 * ((n - t1 - 1) * (n - t1 - 2) - (n - t2) * (n - t2 - 1)) + 6 * (t3 - t2
                        - 1),
                    forall|t: int|
                        0 <= t < r@.len() ==> 1 <= (#[trigger] r@[t]).0 && r@[t].0 < r@[t].1
                            && r@[t].1 < r@[t].2 && r@[t].2 <= 9,
                    forall|t: int|
                        0 <= t < r@.len() ==> options@.contains((#[trigger] r@[t]).0)
                            && options@.contains(r@[t].1) && options@.contains(r@[t].2),
                    forall|u1: int, u2: int, u3: int|
                        #![trigger options@[u1], options@[u2], options@[u3]]
                        0 <= u1 < u2 < u3 < n && u1 < t1 ==> r@.contains(
                            (options@[u1], options@[u2], options@[u3]),
                        ),
                    forall|u2: int, u3: int|
                        #![trigger options@[u2], options@[u3]]
                        t1 < u2 < u3 < n && u2 < t2 ==> r@.contains(
                            (options@[t1 as int], options@[u2], options@[u3]),
                        ),
                    forall|u3: int|
                        t2 < u3 < t3 ==> r@.contains(
                            (options@[t1 as int], options@[t2 as int], #[trigger] options@[u3]),
                        ),
                decreases n - t3,
            {
                let a = options[t1];
                let b = options[t2];
                let c = options[t3];
                let ghost rold = r@;
                r.push((a, b, c));
                proof {
                    assert(r@[rold.len() as int] == (a, b, c));
                    assert(options@.contains(a) && options@.contains(b) && options@.contains(c))
                        by {
                        assert(options@[t1 as int] == a && options@[t2 as int] == b
                            && options@[t3 as int] == c);
                    }
                    assert forall|p: (u8, u8, u8)| rold.contains(p) implies r@.contains(p) by {
                        let t = choose|t: int| 0 <= t < rold.len() && rold[t] == p;
                        assert(r@[t] == p);
                    }
                    assert(r@.contains(
                        (options@[t1 as int], options@[t2 as int], options@[t3 as int]),
                    ));
                }
                t3 = t3 + 1;
            }
            proof {
                let ni = n as int;
                let a1 = t1 as int;
                let a2 = t2 as int;
                assert((ni - a1) * (ni - a1 - 1) * (ni - a1 - 2) - 3 * ((ni - a1 - 1) * (ni - a1
                    - 2) - (ni - a2) * (ni - a2 - 1)) - 6 * (ni - a2 - 1) == (ni - a1) * (ni - a1
                    - 1) * (ni - a1 - 2) - 3 * ((ni - a1 - 1) * (ni - a1 - 2) - (ni - a2 - 1) * (ni
                    - a2 - 2))) by (nonlinear_arith);
            }
            t2 = t2 + 1;
        }
        proof {
            let ni = n as int;
            let a1 = t1 as int;
            let b2 = t2 as int;
            assert((ni - b2) * (ni - b2 - 1) == 0) by (nonlinear_arith)
                requires b2 == ni;
            assert((ni - a1) * (ni - a1 - 1) * (ni - a1 - 2) - 3 * ((ni - a1 - 1) * (ni - a1 - 2))
                == (ni - a1 - 1) * (ni - a1 - 2) * (ni - a1 - 3)) by (nonlinear_arith);
        }
        t1 = t1 + 1;
    }
    proof {
        let ni = n as int;
        let a1 = t1 as int;
        assert((ni - a1) * (ni - a1 - 1) * (ni - a1 - 2) == 0) by (nonlinear_arith)
            requires a1 == ni;
    }
    r
}

/// Every candidate the cell still lists is one of `a` and `b`.
pub open spec fn cell_within_pair(c: Cell, a: u8, b: u8) -> bool {
    forall|e: u16| #[trigger] cell_has(c, e) ==> e == a as u16 || e == b as u16
}

/// Every candidate the cell still lists is one of `a`, `b` and `c`.
pub open spec fn cell_within_triple(c: Cell, a: u8, b: u8, cc: u8) -> bool {
    forall|e: u16| #[trigger] cell_has(c, e) ==> e == a as u16 || e == b as u16 || e == cc as u16
}

/// A matching cell of a unit's sole applying hidden pair is confined to the
/// pair: `(a, b)` has work, nothing else in the unit does.
pub open spec fn sole_pair(g: Seq<Cell>, u: int, a: u8, b: u8) -> bool {
    hidden_pair_applies(g, u, a, b) && forall|a2: u8, b2: u8|
        #[trigger] hidden_pair_applies(g, u, a2, b2) ==> a2 == a && b2 == b
}

/// `(a, b, c)` is the unit's sole applying hidden triple.
pub open spec fn sole_triple(g: Seq<Cell>, u: int, a: u8, b: u8, c: u8) -> bool {
    hidden_triple_applies(g, u, a, b, c) && forall|a2: u8, b2: u8, c2: u8|
        #[trigger] hidden_triple_applies(g, u, a2, b2, c2) ==> a2 == a && b2 == b && c2 == c
}

/// Cell `i` of unit `u` is undetermined and lists both `a` and `b`.
pub open spec fn pair_match(g: Seq<Cell>, u: int, i: int, a: u8, b: u8) -> bool {
    cell_has(g[unit_idx(u, i)], a as u16) && cell_has(g[unit_idx(u, i)], b as u16)
}

/// Number of cells among the first `n` of unit `u` listing both `a` and `b`.
pub open spec fn pair_match_count(g: Seq<Cell>, u: int, a: u8, b: u8, n: int) -> nat
    decreases n,
{
    if n <= 0 {
        0
    } else {
        pair_match_count(g, u, a, b, n - 1) + (if pair_match(g, u, n - 1, a, b) {
            1nat
        } else {
            0nat
        })
    }
}

/// The hidden-pair pattern, short of anything to strike: neither digit is
/// determined in the unit, exactly two cells list both, and no other cell
/// lists either.
pub open spec fn hidden_pair_core(g: Seq<Cell>, u: int, a: u8, b: u8) -> bool {
    &&& 1 <= a < b <= 9
    &&& !unit_has_known(g, u, a)
    &&& !unit_has_known(g, u, b)
    &&& pair_match_count(g, u, a, b, 9) == 2
    &&& forall|i: int|
        0 <= i < 9 && !(#[trigger] pair_match(g, u, i, a, b)) ==> !cell_has(
            g[unit_idx(u, i)],
            a as u16,
        ) && !cell_has(g[unit_idx(u, i)], b as u16)
}

/// The hidden-pair rule fires on unit `u` for digits `a < b`: the pattern
/// holds and at least one of the two cells still carries some third
/// candidate to strike.
pub open spec fn hidden_pair_applies(g: Seq<Cell>, u: int, a: u8, b: u8) -> bool {
    &&& hidden_pair_core(g, u, a, b)
    &&& exists|i: int|
        0 <= i < 9 && #[trigger] pair_match(g, u, i, a, b) && mask_card(
            cell_mask(g[unit_idx(u, i)]),
        ) > 2
}

/// Hidden pairs, on one unit: where two digits missing from the unit are
/// confined to exactly two cells, those cells hold exactly that pair, so
/// their other candidates are struck.
#[verifier::loop_isolation(false)]
#[verifier::rlimit(100)]
#[verifier::spinoff_prover]
pub fn handle_pairs(board: &mut Board, u: usize) -> (changed: bool)
    requires
        old(board).wf(),
        u < 27,
    ensures
        final(board).wf(),
        grid_narrows(old(board)@, final(board)@),
        changed == (final(board)@ != old(board)@),
        forall|k: int|
            0 <= k < 81 && !unit_covers(u as int, k) ==> final(board)@[k] == old(board)@[k],
        forall|k: int|
            0 <= k < 81 && (#[trigger] old(board)@[k]) is Possible ==> final(board)@[k]
                is Possible,
        (exists|a: u8, b: u8| #[trigger] hidden_pair_applies(old(board)@, u as int, a, b))
            ==> changed,
        changed ==> exists|a: u8, b: u8|
            #[trigger] hidden_pair_applies(old(board)@, u as int, a, b),
        forall|s: Seq<u8>|
            #[trigger] solution_of(old(board)@, s) ==> solution_of(final(board)@, s),
        // Where the unit has exactly one applying hidden pair, its effect is
        // spec-exact: both of the pair's cells end confined to the pair.
        forall|a: u8, b: u8, i: int|
            #![trigger sole_pair(old(board)@, u as int, a, b), pair_match(old(board)@, u as int, i, a, b)]
            sole_pair(old(board)@, u as int, a, b) && 0 <= i < 9 && pair_match(
                old(board)@,
                u as int,
                i,
                a,
                b,
            ) ==> cell_within_pair(final(board)@[unit_idx(u as int, i)], a, b),
{
    let ghost g0 = board@;
    proof {
        lemma_grid_narrows_refl(g0);
    }
    let mut changed = false;
    let present = unit_known_mask(board, u);
    let options = missing_digits(present);
    let pairs = make_pairs_from_valid_options(&options);
    let np = pairs.len();
    let mut t: usize = 0;
    while t < np
        invariant
            t <= np,
            board.wf(),
            grid_narrows(g0, board@),
            changed == (board@ != g0),
            forall|k: int| 0 <= k < 81 && !unit_covers(u as int, k) ==> board@[k] == g0[k],
            forall|k: int| 0 <= k < 81 && (#[trigger] g0[k]) is Possible ==> board@[k] is Possible,
            forall|s: Seq<u8>| #[trigger] solution_of(g0, s) ==> solution_of(board@, s),
            !changed ==> forall|t2: int|
                0 <= t2 < t ==> !hidden_pair_applies(
                    g0,
                    u as int,
                    (#[trigger] pairs@[t2]).0,
                    pairs@[t2].1,
                ),
            changed ==> exists|a: u8, b: u8| #[trigger] hidden_pair_applies(g0, u as int, a, b),
            changed ==> forall|a2: u8, b2: u8, i2: int|
                #![trigger sole_pair(g0, u as int, a2, b2), pair_match(g0, u as int, i2, a2, b2)]
                sole_pair(g0, u as int, a2, b2) && 0 <= i2 < 9 && pair_match(
                    g0,
                    u as int,
                    i2,
                    a2,
                    b2,
                ) ==> cell_within_pair(board@[unit_idx(u as int, i2)], a2, b2),
        decreases np - t,
    {
        let p = pairs[t];
        let a = p.0;
        let b = p.1;
        let ghost tstart = board@;

        // Phase one: count the cells listing both digits, note whether any
        // of them carries a third candidate, and whether any other cell
        // lists one of the digits.
        let mut mcount: u8 = 0;
        let mut need_clear = false;
        let mut only = true;
        let ghost mut wit: int = 0;
        let ghost mut clear_wit: int = 0;
        let mut i: usize = 0;
        while i < 9
            invariant
                i <= 9,
                mcount <= i,
                mcount as nat == pair_match_count(board@, u as int, a, b, i as int),
                need_clear ==> 0 <= clear_wit < i && pair_match(board@, u as int, clear_wit, a, b)
                    && mask_card(cell_mask(board@[unit_idx(u as int, clear_wit)])) > 2,
                !need_clear ==> forall|i2: int|
                    0 <= i2 < i && #[trigger] pair_match(board@, u as int, i2, a, b) ==> mask_card(
                        cell_mask(board@[unit_idx(u as int, i2)]),
                    ) <= 2,
                only ==> forall|i2: int|
                    0 <= i2 < i && !(#[trigger] pair_match(board@, u as int, i2, a, b))
                        ==> !cell_has(board@[unit_idx(u as int, i2)], a as u16) && !cell_has(
                        board@[unit_idx(u as int, i2)],
                        b as u16,
                    ),
                !only ==> 0 <= wit < i && !pair_match(board@, u as int, wit, a, b) && (cell_has(
                    board@[unit_idx(u as int, wit)],
                    a as u16,
                ) || cell_has(board@[unit_idx(u as int, wit)], b as u16)),
            decreases 9 - i,
        {
            let (rr, cc) = unit_cell_pos(u, i);
            proof {
                lemma_unit_bounds(u as int, i as int);
            }
            match board.get(rr, cc) {
                Cell::Known(_) => {},
                Cell::Possible(m) => {
                    if mask_test(m, a) && mask_test(m, b) {
                        mcount = mcount + 1;
                        if mask_count(m) > 2 {
                            need_clear = true;
                            proof {
                                clear_wit = i as int;
                            }
                        }
                    } else if mask_test(m, a) || mask_test(m, b) {
                        only = false;
                        proof {
                            wit = i as int;
                        }
                    }
                },
            }
            i = i + 1;
        }

        // Phase two: the pair is exclusive to two cells; shrink both down to
        // exactly the pair.
        if mcount == 2 && need_clear && only {
            proof {
                assert(!mask_has(present, a as u16)) by {
                    let ta = choose|ta: int| 0 <= ta < options@.len() && options@[ta] == a;
                }
                assert(!mask_has(present, b as u16)) by {
                    let tb = choose|tb: int| 0 <= tb < options@.len() && options@[tb] == b;
                }
                assert(!unit_has_known(g0, u as int, a)) by {
                    if unit_has_known(g0, u as int, a) {
                        assert(mask_has(present, (a as u16)));
                    }
                }
                assert(!unit_has_known(g0, u as int, b)) by {
                    if unit_has_known(g0, u as int, b) {
                        assert(mask_has(present, (b as u16)));
                    }
                }
                assert(!unit_has_known(board@, u as int, a)) by {
                    if unit_has_known(board@, u as int, a) {
                        let iw = choose|iw: int|
                            0 <= iw < 9 && board@[unit_idx(u as int, iw)] == Cell::Known(a);
                        lemma_unit_bounds(u as int, iw);
                        assert(g0[unit_idx(u as int, iw)] is Known);
                        assert(g0[unit_idx(u as int, iw)] == Cell::Known(a));
                    }
                }
                assert(!unit_has_known(board@, u as int, b)) by {
                    if unit_has_known(board@, u as int, b) {
                        let iw = choose|iw: int|
                            0 <= iw < 9 && board@[unit_idx(u as int, iw)] == Cell::Known(b);
                        lemma_unit_bounds(u as int, iw);
                        assert(g0[unit_idx(u as int, iw)] is Known);
                        assert(g0[unit_idx(u as int, iw)] == Cell::Known(b));
                    }
                }
                assert(hidden_pair_core(board@, u as int, a, b));
                if !changed {
                    assert(hidden_pair_applies(g0, u as int, a, b));
                }
            }
            let pairmask = mask_set(mask_set(mask_empty(), a), b);
            proof {
                lemma_grid_narrows_refl(tstart);
            }
            let mut i2: usize = 0;
            while i2 < 9
                invariant
                    i2 <= 9,
                    board.wf(),
                    grid_narrows(g0, board@),
                    changed == (board@ != g0),
                    forall|k: int| 0 <= k < 81 && !unit_covers(u as int, k) ==> board@[k] == g0[k],
                    forall|k: int|
                        0 <= k < 81 && (#[trigger] g0[k]) is Possible ==> board@[k] is Possible,
                    forall|s: Seq<u8>| #[trigger] solution_of(g0, s) ==> solution_of(board@, s),
                    hidden_pair_core(board@, u as int, a, b),
                    grid_narrows(tstart, board@),
                    forall|i3: int|
                        0 <= i3 < i2 && #[trigger] pair_match(board@, u as int, i3, a, b)
                            ==> cell_within_pair(board@[unit_idx(u as int, i3)], a, b),
                    forall|i3: int|
                        0 <= i3 < 9 && #[trigger] pair_match(tstart, u as int, i3, a, b)
                            ==> pair_match(board@, u as int, i3, a, b),
                    !changed ==> forall|i3: int|
                        0 <= i3 < i2 && #[trigger] pair_match(g0, u as int, i3, a, b) ==> mask_card(
                            cell_mask(g0[unit_idx(u as int, i3)]),
                        ) <= 2,
                    !changed ==> forall|t2: int|
                        0 <= t2 < t ==> !hidden_pair_applies(
                            g0,
                            u as int,
                            (#[trigger] pairs@[t2]).0,
                            pairs@[t2].1,
                        ),
                    changed ==> exists|a2: u8, b2: u8|
                        #[trigger] hidden_pair_applies(g0, u as int, a2, b2),
                decreases 9 - i2,
            {
                let (rr, cc) = unit_cell_pos(u, i2);
                proof {
                    lemma_unit_bounds(u as int, i2 as int);
                }
                match board.get(rr, cc) {
                    Cell::Known(_) => {},
                    Cell::Possible(m) => {
                        if mask_test(m, a) && mask_test(m, b) && mask_count(m) > 2 {
                            let m2 = mask_and(m, pairmask);
                            proof {
                                assert(cell_wf(board@[unit_idx(u as int, i2 as int)]));
                                lemma_count_limited2(m2, a as u16, b as u16, 1);
                                assert(m2 != m);
                                assert(cell_narrows(Cell::Possible(m), Cell::Possible(m2)));
                                assert(unit_covers(u as int, unit_idx(u as int, i2 as int)));
                            }
                            let ghost pre = board@;
                            let ghost k = unit_idx(u as int, i2 as int);
                            changed = set_narrowed(
                                board,
                                rr,
                                cc,
                                Cell::Possible(m2),
                                changed,
                                Ghost(g0),
                            );
                            proof {
                                assert(changed) by {
                                    if !changed {
                                        lemma_grid_narrows_sandwich(g0, pre, board@);
                                    }
                                }
                                // Every valid completion survives the cut:
                                // its digit at this cell is one of the pair,
                                // pinned there by the pattern.
                                assert forall|s: Seq<u8>| #[trigger] solution_of(g0, s)
                                    implies solution_of(board@, s) by {
                                    assert(solution_of(pre, s));
                                    lemma_hidden_pair_sound(pre, s, u as int, a, b, i2 as int);
                                    assert(cell_has(Cell::Possible(m2), s[k] as u16));
                                    lemma_solution_update(pre, s, k, Cell::Possible(m2));
                                }
                                lemma_pair_core_stable(
                                    pre,
                                    board@,
                                    u as int,
                                    i2 as int,
                                    a,
                                    b,
                                    m,
                                    m2,
                                );
                                lemma_grid_narrows_trans(tstart, pre, board@);
                                assert forall|i3: int|
                                    0 <= i3 < i2 + 1 && #[trigger] pair_match(
                                        board@,
                                        u as int,
                                        i3,
                                        a,
                                        b,
                                    ) implies cell_within_pair(
                                    board@[unit_idx(u as int, i3)],
                                    a,
                                    b,
                                ) by {
                                    lemma_unit_bounds(u as int, i3);
                                    if i3 != i2 as int {
                                        lemma_unit_inj(u as int, i3, i2 as int);
                                        assert(board@[unit_idx(u as int, i3)] == pre[unit_idx(
                                            u as int,
                                            i3,
                                        )]);
                                        assert(pair_match(pre, u as int, i3, a, b));
                                        assert(cell_within_pair(
                                            pre[unit_idx(u as int, i3)],
                                            a,
                                            b,
                                        ));
                                    } else {
                                        assert(board@[unit_idx(u as int, i3)] == Cell::Possible(
                                            m2,
                                        ));
                                        assert forall|e: u16|
                                            #[trigger] mask_has(m2, e) implies e == a as u16 || e
                                            == b as u16 by {
                                            assert(mask_has(pairmask, e));
                                        }
                                    }
                                }
                                assert forall|i3: int|
                                    0 <= i3 < 9 && #[trigger] pair_match(
                                        tstart,
                                        u as int,
                                        i3,
                                        a,
                                        b,
                                    ) implies pair_match(board@, u as int, i3, a, b) by {
                                    lemma_unit_bounds(u as int, i3);
                                    if i3 != i2 as int {
                                        lemma_unit_inj(u as int, i3, i2 as int);
                                        assert(board@[unit_idx(u as int, i3)] == pre[unit_idx(
                                            u as int,
                                            i3,
                                        )]);
                                    }
                                }
                            }
                        } else {
                            proof {
                                // The cell already holds exactly the pair:
                                // any third member would make three.
                                if mask_has(m, a as u16) && mask_has(m, b as u16) {
                                    assert(cell_wf(board@[unit_idx(u as int, i2 as int)]));
                                    assert forall|e: u16|
                                        #[trigger] mask_has(m, e) implies e == a as u16 || e
                                        == b as u16 by {
                                        if e != a as u16 && e != b as u16 {
                                            assert(1 <= e <= 9);
                                            if e < a as u16 {
                                                crate::mask::lemma_count_three(
                                                    m,
                                                    e,
                                                    a as u16,
                                                    b as u16,
                                                    1,
                                                );
                                            } else if e < b as u16 {
                                                crate::mask::lemma_count_three(
                                                    m,
                                                    a as u16,
                                                    e,
                                                    b as u16,
                                                    1,
                                                );
                                            } else {
                                                crate::mask::lemma_count_three(
                                                    m,
                                                    a as u16,
                                                    b as u16,
                                                    e,
                                                    1,
                                                );
                                            }
                                        }
                                    }
                                }
                            }
                        }
                    },
                }
                i2 = i2 + 1;
            }
        }

        proof {
            if changed {
                assert(grid_narrows(tstart, board@)) by {
                    if !(mcount == 2 && need_clear && only) {
                        lemma_grid_narrows_refl(tstart);
                    }
                }
                assert forall|a2: u8, b2: u8, i3: int|
                    #![trigger sole_pair(g0, u as int, a2, b2), pair_match(g0, u as int, i3, a2, b2)]
                    sole_pair(g0, u as int, a2, b2) && 0 <= i3 < 9 && pair_match(
                        g0,
                        u as int,
                        i3,
                        a2,
                        b2,
                    ) implies cell_within_pair(board@[unit_idx(u as int, i3)], a2, b2) by {
                    lemma_unit_bounds(u as int, i3);
                    if tstart != g0 {
                        // The fact stood when this pair's turn began, and
                        // narrowing keeps a confined cell confined.
                        assert(cell_within_pair(tstart[unit_idx(u as int, i3)], a2, b2));
                        assert(cell_narrows(
                            tstart[unit_idx(u as int, i3)],
                            board@[unit_idx(u as int, i3)],
                        ));
                        assert forall|e: u16|
                            #[trigger] cell_has(board@[unit_idx(u as int, i3)], e) implies e
                            == a2 as u16 || e == b2 as u16 by {
                            assert(cell_has(tstart[unit_idx(u as int, i3)], e));
                        }
                    } else {
                        // The grid first changed during this pair's turn, so
                        // this pair is the unit's sole applying pair, and
                        // its cells were confined by the cut.
                        assert(board@ != g0);
                        assert(hidden_pair_applies(g0, u as int, a, b));
                        assert(a2 == a && b2 == b);
                        assert(pair_match(tstart, u as int, i3, a, b));
                        assert(pair_match(board@, u as int, i3, a, b));
                    }
                }
            }
            if !changed {
                assert(!hidden_pair_applies(g0, u as int, a, b)) by {
                    if hidden_pair_applies(g0, u as int, a, b) {
                        assert(mcount == 2 && need_clear && only);
                        let iw = choose|iw: int|
                            0 <= iw < 9 && #[trigger] pair_match(g0, u as int, iw, a, b)
                                && mask_card(cell_mask(g0[unit_idx(u as int, iw)])) > 2;
                        assert(false);
                    }
                };
                assert forall|t2: int| 0 <= t2 < t + 1 implies !hidden_pair_applies(
                    g0,
                    u as int,
                    (#[trigger] pairs@[t2]).0,
                    pairs@[t2].1,
                ) by {
                    if t2 == t {
                        assert(pairs@[t2].0 == a && pairs@[t2].1 == b);
                    }
                }
            }
        }
        t = t + 1;
    }

    proof {
        if !changed {
            assert forall|a: u8, b: u8| !(#[trigger] hidden_pair_applies(
                g0,
                u as int,
                a,
                b,
            )) by {
                if hidden_pair_applies(g0, u as int, a, b) {
                    assert(1 <= a < b <= 9);
                    assert(!mask_has(present, a as u16));
                    assert(!mask_has(present, b as u16));
                    let ta = choose|ta: int| 0 <= ta < options@.len() && options@[ta] == a;
                    let tb = choose|tb: int| 0 <= tb < options@.len() && options@[tb] == b;
                    assert(ta < tb);
                    assert(pairs@.contains((a, b)));
                    let tp = choose|tp: int| 0 <= tp < pairs@.len() && pairs@[tp] == (a, b);
                    assert(!hidden_pair_applies(g0, u as int, pairs@[tp].0, pairs@[tp].1));
                }
            }
        }
    }
    changed
}

/// Cell `i` of unit `u` is undetermined and lists at least one of `a`, `b`
/// and `c`.
pub open spec fn triple_match(g: Seq<Cell>, u: int, i: int, a: u8, b: u8, c: u8) -> bool {
    cell_has(g[unit_idx(u, i)], a as u16) || cell_has(g[unit_idx(u, i)], b as u16) || cell_has(
        g[unit_idx(u, i)],
        c as u16,
    )
}

/// Number of cells among the first `n` of unit `u` listing at least one of
/// `a`, `b` and `c`.
pub open spec fn triple_match_count(g: Seq<Cell>, u: int, a: u8, b: u8, c: u8, n: int) -> nat
    decreases n,
{
    if n <= 0 {
        0
    } else {
        triple_match_count(g, u, a, b, c, n - 1) + (if triple_match(g, u, n - 1, a, b, c) {
            1nat
        } else {
            0nat
        })
    }
}

/// The hidden-triple pattern, short of anything to strike: none of the
/// three digits is determined in the unit, and the cells listing any of
/// them number exactly three.
pub open spec fn hidden_triple_core(g: Seq<Cell>, u: int, a: u8, b: u8, c: u8) -> bool {
    &&& 1 <= a < b < c <= 9
    &&& !unit_has_known(g, u, a)
    &&& !unit_has_known(g, u, b)
    &&& !unit_has_known(g, u, c)
    &&& triple_match_count(g, u, a, b, c, 9) == 3
}

/// The hidden-triple rule fires on unit `u` for digits `a < b < c`: the
/// pattern holds and at least one of the three cells has more than three
/// candidates, so its set shrinks when cut down to the triple.
pub open spec fn hidden_triple_applies(g: Seq<Cell>, u: int, a: u8, b: u8, c: u8) -> bool {
    &&& hidden_triple_core(g, u, a, b, c)
    &&& exists|i: int|
        0 <= i < 9 && #[trigger] triple_match(g, u, i, a, b, c) && mask_card(
            cell_mask(g[unit_idx(u, i)]),
        ) > 3
}

/// Hidden triples, on one unit: where the cells listing any of three
/// digits missing from the unit number exactly three, those three cells
/// collectively own the three digits, so each is cut down to its share of
/// the triple.
#[verifier::loop_isolation(false)]
#[verifier::rlimit(100)]
#[verifier::spinoff_prover]
pub fn handle_hidden_tripples(board: &mut Board, u: usize) -> (changed: bool)
    requires
        old(board).wf(),
        u < 27,
    ensures
        final(board).wf(),
        grid_narrows(old(board)@, final(board)@),
        changed == (final(board)@ != old(board)@),
        forall|k: int|
            0 <= k < 81 && !unit_covers(u as int, k) ==> final(board)@[k] == old(board)@[k],
        forall|k: int|
            0 <= k < 81 && (#[trigger] old(board)@[k]) is Possible ==> final(board)@[k]
                is Possible,
        (exists|a: u8, b: u8, c: u8|
            #[trigger] hidden_triple_applies(old(board)@, u as int, a, b, c)) ==> changed,
        changed ==> exists|a: u8, b: u8, c: u8|
            #[trigger] hidden_triple_applies(old(board)@, u as int, a, b, c),
        forall|s: Seq<u8>|
            #[trigger] solution_of(old(board)@, s) ==> solution_of(final(board)@, s),
        // Where the unit has exactly one applying hidden triple, its effect
        // is spec-exact: each listing cell ends cut to its intersection
        // with the triple.
        forall|a: u8, b: u8, c: u8, i: int|
            #![trigger sole_triple(old(board)@, u as int, a, b, c), triple_match(old(board)@, u as int, i, a, b, c)]
            sole_triple(old(board)@, u as int, a, b, c) && 0 <= i < 9 && triple_match(
                old(board)@,
                u as int,
                i,
                a,
                b,
                c,
            ) ==> cell_within_triple(final(board)@[unit_idx(u as int, i)], a, b, c),
{
    let ghost g0 = board@;
    proof {
        lemma_grid_narrows_refl(g0);
    }
    let mut changed = false;
    let present = unit_known_mask(board, u);
    let options = missing_digits(present);
    let triples = make_tripples_from_valid_options(&options);
    let np = triples.len();
    let mut t: usize = 0;
    while t < np
        invariant
            t <= np,
            board.wf(),
            grid_narrows(g0, board@),
            changed == (board@ != g0),
            forall|k: int| 0 <= k < 81 && !unit_covers(u as int, k) ==> board@[k] == g0[k],
            forall|k: int| 0 <= k < 81 && (#[trigger] g0[k]) is Possible ==> board@[k] is Possible,
            forall|s: Seq<u8>| #[trigger] solution_of(g0, s) ==> solution_of(board@, s),
            !changed ==> forall|t2: int|
                0 <= t2 < t ==> !hidden_triple_applies(
                    g0,
                    u as int,
                    (#[trigger] triples@[t2]).0,
                    triples@[t2].1,
                    triples@[t2].2,
                ),
            changed ==> exists|a2: u8, b2: u8, c2: u8|
                #[trigger] hidden_triple_applies(g0, u as int, a2, b2, c2),
            changed ==> forall|a2: u8, b2: u8, c2: u8, i2: int|
                #![trigger sole_triple(g0, u as int, a2, b2, c2), triple_match(g0, u as int, i2, a2, b2, c2)]
                sole_triple(g0, u as int, a2, b2, c2) && 0 <= i2 < 9 && triple_match(
                    g0,
                    u as int,
                    i2,
                    a2,
                    b2,
                    c2,
                ) ==> cell_within_triple(board@[unit_idx(u as int, i2)], a2, b2, c2),
        decreases np - t,
    {
        let p = triples[t];
        let a = p.0;
        let b = p.1;
        let c = p.2;
        let ghost tstart = board@;

        // Phase one: count the cells listing any of the three digits, and
        // note whether one of them carries a fourth candidate.
        let mut mcount: u8 = 0;
        let mut need_clear = false;
        let ghost mut clear_wit: int = 0;
        let mut i: usize = 0;
        while i < 9
            invariant
                i <= 9,
                mcount <= i,
                mcount as nat == triple_match_count(board@, u as int, a, b, c, i as int),
                need_clear ==> 0 <= clear_wit < i && triple_match(
                    board@,
                    u as int,
                    clear_wit,
                    a,
                    b,
                    c,
                ) && mask_card(cell_mask(board@[unit_idx(u as int, clear_wit)])) > 3,
                !need_clear ==> forall|i2: int|
                    0 <= i2 < i && #[trigger] triple_match(board@, u as int, i2, a, b, c)
                        ==> mask_card(cell_mask(board@[unit_idx(u as int, i2)])) <= 3,
            decreases 9 - i,
        {
            let (rr, cc) = unit_cell_pos(u, i);
            proof {
                lemma_unit_bounds(u as int, i as int);
            }
            match board.get(rr, cc) {
                Cell::Known(_) => {},
                Cell::Possible(m) => {
                    if mask_test(m, a) || mask_test(m, b) || mask_test(m, c) {
                        mcount = mcount + 1;
                        if mask_count(m) > 3 {
                            need_clear = true;
                            proof {
                                clear_wit = i as int;
                            }
                        }
                    }
                },
            }
            i = i + 1;
        }

        // Phase two: the three digits are confined to three cells; cut each
        // of those cells down to its intersection with the triple.
        if mcount == 3 && need_clear {
            proof {
                assert(!mask_has(present, a as u16)) by {
                    let ta = choose|ta: int| 0 <= ta < options@.len() && options@[ta] == a;
                }
                assert(!mask_has(present, b as u16)) by {
                    let tb = choose|tb: int| 0 <= tb < options@.len() && options@[tb] == b;
                }
                assert(!mask_has(present, c as u16)) by {
                    let tc = choose|tc: int| 0 <= tc < options@.len() && options@[tc] == c;
                }
                assert(!unit_has_known(g0, u as int, a)) by {
                    if unit_has_known(g0, u as int, a) {
                        assert(mask_has(present, (a as u16)));
                    }
                }
                assert(!unit_has_known(g0, u as int, b)) by {
                    if unit_has_known(g0, u as int, b) {
                        assert(mask_has(present, (b as u16)));
                    }
                }
                assert(!unit_has_known(g0, u as int, c)) by {
                    if unit_has_known(g0, u as int, c) {
                        assert(mask_has(present, (c as u16)));
                    }
                }
                if !changed {
                    assert(hidden_triple_applies(g0, u as int, a, b, c));
                }
            }
            let triplemask = mask_set(mask_set(mask_set(mask_empty(), a), b), c);
            proof {
                lemma_grid_narrows_refl(tstart);
            }
            let mut i2: usize = 0;
            while i2 < 9
                invariant
                    i2 <= 9,
                    board.wf(),
                    grid_narrows(g0, board@),
                    changed == (board@ != g0),
                    forall|k: int| 0 <= k < 81 && !unit_covers(u as int, k) ==> board@[k] == g0[k],
                    forall|k: int|
                        0 <= k < 81 && (#[trigger] g0[k]) is Possible ==> board@[k] is Possible,
                    forall|s: Seq<u8>| #[trigger] solution_of(g0, s) ==> solution_of(board@, s),
                    hidden_triple_core(board@, u as int, a, b, c),
                    grid_narrows(tstart, board@),
                    forall|i3: int|
                        0 <= i3 < i2 && #[trigger] triple_match(board@, u as int, i3, a, b, c)
                            ==> cell_within_triple(board@[unit_idx(u as int, i3)], a, b, c),
                    forall|i3: int|
                        0 <= i3 < 9 && #[trigger] triple_match(tstart, u as int, i3, a, b, c)
                            ==> triple_match(board@, u as int, i3, a, b, c),
                    !changed ==> forall|i3: int|
                        0 <= i3 < i2 && #[trigger] triple_match(g0, u as int, i3, a, b, c)
                            ==> mask_card(cell_mask(g0[unit_idx(u as int, i3)])) <= 3,
                    !changed ==> forall|t2: int|
                        0 <= t2 < t ==> !hidden_triple_applies(
                            g0,
                            u as int,
                            (#[trigger] triples@[t2]).0,
                            triples@[t2].1,
                            triples@[t2].2,
                        ),
                    changed ==> exists|a2: u8, b2: u8, c2: u8|
                        #[trigger] hidden_triple_applies(g0, u as int, a2, b2, c2),
                decreases 9 - i2,
            {
                let (rr, cc) = unit_cell_pos(u, i2);
                proof {
                    lemma_unit_bounds(u as int, i2 as int);
                }
                match board.get(rr, cc) {
                    Cell::Known(_) => {},
                    Cell::Possible(m) => {
                        if mask_test(m, a) || mask_test(m, b) || mask_test(m, c) {
                            let m2 = mask_and(m, triplemask);
                            if m2 != m {
                                let ghost pre = board@;
                                let ghost k = unit_idx(u as int, i2 as int);
                                proof {
                                    assert(cell_wf(pre[k]));
                                    lemma_count_limited3(m2, a as u16, b as u16, c as u16, 1);
                                    assert(cell_narrows(Cell::Possible(m), Cell::Possible(m2)));
                                    assert(unit_covers(u as int, k));
                                }
                                changed = set_narrowed(
                                    board,
                                    rr,
                                    cc,
                                    Cell::Possible(m2),
                                    changed,
                                    Ghost(g0),
                                );
                                proof {
                                    assert(changed) by {
                                        if !changed {
                                            lemma_grid_narrows_sandwich(g0, pre, board@);
                                        }
                                    }
                                    // Every valid completion survives the cut:
                                    // its digit at this cell is one of the
                                    // three, pinned there by the pattern.
                                    assert forall|s: Seq<u8>| #[trigger] solution_of(g0, s)
                                        implies solution_of(board@, s) by {
                                        assert(solution_of(pre, s));
                                        lemma_hidden_triple_sound(
                                            pre,
                                            s,
                                            u as int,
                                            a,
                                            b,
                                            c,
                                            i2 as int,
                                        );
                                        assert(cell_has(Cell::Possible(m2), s[k] as u16));
                                        lemma_solution_update(pre, s, k, Cell::Possible(m2));
                                    }
                                    lemma_triple_core_stable(
                                        pre,
                                        board@,
                                        u as int,
                                        i2 as int,
                                        a,
                                        b,
                                        c,
                                        m,
                                        m2,
                                    );
                                    lemma_grid_narrows_trans(tstart, pre, board@);
                                    assert forall|i3: int|
                                        0 <= i3 < i2 + 1 && #[trigger] triple_match(
                                            board@,
                                            u as int,
                                            i3,
                                            a,
                                            b,
                                            c,
                                        ) implies cell_within_triple(
                                        board@[unit_idx(u as int, i3)],
                                        a,
                                        b,
                                        c,
                                    ) by {
                                        lemma_unit_bounds(u as int, i3);
                                        if i3 != i2 as int {
                                            lemma_unit_inj(u as int, i3, i2 as int);
                                            assert(board@[unit_idx(u as int, i3)] == pre[unit_idx(
                                                u as int,
                                                i3,
                                            )]);
                                            assert(triple_match(pre, u as int, i3, a, b, c));
                                            assert(cell_within_triple(
                                                pre[unit_idx(u as int, i3)],
                                                a,
                                                b,
                                                c,
                                            ));
                                        } else {
                                            assert(board@[unit_idx(u as int, i3)]
                                                == Cell::Possible(m2));
                                            assert forall|e: u16|
                                                #[trigger] mask_has(m2, e) implies e == a as u16
                                                || e == b as u16 || e == c as u16 by {
                                                assert(mask_has(triplemask, e));
                                            }
                                        }
                                    }
                                    assert forall|i3: int|
                                        0 <= i3 < 9 && #[trigger] triple_match(
                                            tstart,
                                            u as int,
                                            i3,
                                            a,
                                            b,
                                            c,
                                        ) implies triple_match(board@, u as int, i3, a, b, c) by {
                                        lemma_unit_bounds(u as int, i3);
                                        if i3 != i2 as int {
                                            lemma_unit_inj(u as int, i3, i2 as int);
                                            assert(board@[unit_idx(u as int, i3)] == pre[unit_idx(
                                                u as int,
                                                i3,
                                            )]);
                                        }
                                    }
                                }
                            } else {
                                proof {
                                    if !changed {
                                        assert(forall|e: u16|
                                            mask_has(m, e) ==> e == a as u16 || e == b as u16 || e
                                                == c as u16);
                                        lemma_count_limited3(m, a as u16, b as u16, c as u16, 1);
                                    }
                                    // An uncut cell already sits within the
                                    // triple.
                                    if mask_has(m, a as u16) || mask_has(m, b as u16) || mask_has(
                                        m,
                                        c as u16,
                                    ) {
                                        assert forall|e: u16|
                                            #[trigger] mask_has(m, e) implies e == a as u16 || e
                                            == b as u16 || e == c as u16 by {
                                            assert(mask_has(m2, e) == (mask_has(m, e) && mask_has(
                                                triplemask,
                                                e,
                                            )));
                                        }
                                    }
                                }
                            }
                        }
                    },
                }
                i2 = i2 + 1;
            }
        }

        proof {
            if changed {
                assert(grid_narrows(tstart, board@)) by {
                    if !(mcount == 3 && need_clear) {
                        lemma_grid_narrows_refl(tstart);
                    }
                }
                assert forall|a2: u8, b2: u8, c2: u8, i3: int|
                    #![trigger sole_triple(g0, u as int, a2, b2, c2), triple_match(g0, u as int, i3, a2, b2, c2)]
                    sole_triple(g0, u as int, a2, b2, c2) && 0 <= i3 < 9 && triple_match(
                        g0,
                        u as int,
                        i3,
                        a2,
                        b2,
                        c2,
                    ) implies cell_within_triple(board@[unit_idx(u as int, i3)], a2, b2, c2) by {
                    lemma_unit_bounds(u as int, i3);
                    if tstart != g0 {
                        // The fact stood when this triple's turn began, and
                        // narrowing keeps a confined cell confined.
                        assert(cell_within_triple(tstart[unit_idx(u as int, i3)], a2, b2, c2));
                        assert(cell_narrows(
                            tstart[unit_idx(u as int, i3)],
                            board@[unit_idx(u as int, i3)],
                        ));
                        assert forall|e: u16|
                            #[trigger] cell_has(board@[unit_idx(u as int, i3)], e) implies e
                            == a2 as u16 || e == b2 as u16 || e == c2 as u16 by {
                            assert(cell_has(tstart[unit_idx(u as int, i3)], e));
                        }
                    } else {
                        // The grid first changed during this triple's turn,
                        // so this triple is the unit's sole applying one,
                        // and its cells were cut to it.
                        assert(board@ != g0);
                        assert(hidden_triple_applies(g0, u as int, a, b, c));
                        assert(a2 == a && b2 == b && c2 == c);
                        assert(triple_match(tstart, u as int, i3, a, b, c));
                        assert(triple_match(board@, u as int, i3, a, b, c));
                    }
                }
            }
            if !changed {
                assert(!hidden_triple_applies(g0, u as int, a, b, c)) by {
                    if hidden_triple_applies(g0, u as int, a, b, c) {
                        assert(mcount == 3 && need_clear);
                        let iw = choose|iw: int|
                            0 <= iw < 9 && #[trigger] triple_match(g0, u as int, iw, a, b, c)
                                && mask_card(cell_mask(g0[unit_idx(u as int, iw)])) > 3;
                        assert(false);
                    }
                };
                assert forall|t2: int| 0 <= t2 < t + 1 implies !hidden_triple_applies(
                    g0,
                    u as int,
                    (#[trigger] triples@[t2]).0,
                    triples@[t2].1,
                    triples@[t2].2,
                ) by {
                    if t2 == t {
                        assert(triples@[t2].0 == a && triples@[t2].1 == b && triples@[t2].2 == c);
                    }
                }
            }
        }
        t = t + 1;
    }

    proof {
        if !changed {
            assert forall|a: u8, b: u8, c: u8| !(#[trigger] hidden_triple_applies(
                g0,
                u as int,
                a,
                b,
                c,
            )) by {
                if hidden_triple_applies(g0, u as int, a, b, c) {
                    assert(1 <= a < b < c <= 9);
                    assert(!mask_has(present, a as u16));
                    assert(!mask_has(present, b as u16));
                    assert(!mask_has(present, c as u16));
                    let ta = choose|ta: int| 0 <= ta < options@.len() && options@[ta] == a;
                    let tb = choose|tb: int| 0 <= tb < options@.len() && options@[tb] == b;
                    let tc = choose|tc: int| 0 <= tc < options@.len() && options@[tc] == c;
                    assert(ta < tb);
                    assert(tb < tc);
                    assert(triples@.contains((a, b, c)));
                    let tp = choose|tp: int| 0 <= tp < triples@.len() && triples@[tp] == (a, b, c);
                    assert(!hidden_triple_applies(
                        g0,
                        u as int,
                        triples@[tp].0,
                        triples@[tp].1,
                        triples@[tp].2,
                    ));
                }
            }
        }
    }
    changed
}

/// Cutting one cell of the pair down to exactly the pair leaves the
/// hidden-pair pattern itself in place: the cell keeps both digits, no
/// determined cell moves, so the count, the exclusivity and the missing
/// digits persist.
proof fn lemma_pair_core_stable(
    pre: Seq<Cell>,
    post: Seq<Cell>,
    u: int,
    i2: int,
    a: u8,
    b: u8,
    m: u16,
    m2: u16,
)
    requires
        hidden_pair_core(pre, u, a, b),
        0 <= u < 27,
        0 <= i2 < 9,
        pre.len() == 81,
        post == pre.update(unit_idx(u, i2), Cell::Possible(m2)),
        pre[unit_idx(u, i2)] == Cell::Possible(m),
        forall|e: u16|
            mask_has(m2, e) <==> (mask_has(m, e) && (e == a as u16 || e == b as u16)),
        pair_match(pre, u, i2, a, b),
    ensures
        hidden_pair_core(post, u, a, b),
{
    lemma_unit_bounds(u, i2);
    assert(pair_match(post, u, i2, a, b));
    assert forall|i3: int| 0 <= i3 < 9 implies #[trigger] pair_match(post, u, i3, a, b)
        == pair_match(pre, u, i3, a, b) by {
        lemma_unit_bounds(u, i3);
        if i3 != i2 {
            lemma_unit_inj(u, i3, i2);
        }
    }
    lemma_pair_count_congruent(post, pre, u, a, b, 9);
    assert forall|i3: int|
        0 <= i3 < 9 && !(#[trigger] pair_match(post, u, i3, a, b)) implies !cell_has(
        post[unit_idx(u, i3)],
        a as u16,
    ) && !cell_has(post[unit_idx(u, i3)], b as u16) by {
        lemma_unit_bounds(u, i3);
        if i3 != i2 {
            lemma_unit_inj(u, i3, i2);
            assert(post[unit_idx(u, i3)] == pre[unit_idx(u, i3)]);
        }
    }
    assert(!unit_has_known(post, u, a)) by {
        if unit_has_known(post, u, a) {
            let iw = choose|iw: int| 0 <= iw < 9 && post[unit_idx(u, iw)] == Cell::Known(a);
            lemma_unit_bounds(u, iw);
            if iw != i2 {
                lemma_unit_inj(u, iw, i2);
            }
            assert(pre[unit_idx(u, iw)] == Cell::Known(a));
        }
    }
    assert(!unit_has_known(post, u, b)) by {
        if unit_has_known(post, u, b) {
            let iw = choose|iw: int| 0 <= iw < 9 && post[unit_idx(u, iw)] == Cell::Known(b);
            lemma_unit_bounds(u, iw);
            if iw != i2 {
                lemma_unit_inj(u, iw, i2);
            }
            assert(pre[unit_idx(u, iw)] == Cell::Known(b));
        }
    }
}

/// Equal match status cell for cell gives an equal match count.
proof fn lemma_pair_count_congruent(g1: Seq<Cell>, g2: Seq<Cell>, u: int, a: u8, b: u8, n: int)
    requires
        forall|i: int|
            0 <= i < n ==> #[trigger] pair_match(g1, u, i, a, b) == pair_match(g2, u, i, a, b),
    ensures
        pair_match_count(g1, u, a, b, n) == pair_match_count(g2, u, a, b, n),
    decreases n,
{
    if n > 0 {
        lemma_pair_count_congruent(g1, g2, u, a, b, n - 1);
    }
}

/// Cutting one listing cell down to its share of the triple leaves the
/// hidden-triple pattern itself in place: the cell keeps its triple digits,
/// no determined cell moves, so the count and the missing digits persist.
proof fn lemma_triple_core_stable(
    pre: Seq<Cell>,
    post: Seq<Cell>,
    u: int,
    i2: int,
    a: u8,
    b: u8,
    c: u8,
    m: u16,
    m2: u16,
)
    requires
        hidden_triple_core(pre, u, a, b, c),
        0 <= u < 27,
        0 <= i2 < 9,
        pre.len() == 81,
        post == pre.update(unit_idx(u, i2), Cell::Possible(m2)),
        pre[unit_idx(u, i2)] == Cell::Possible(m),
        forall|e: u16|
            mask_has(m2, e) <==> (mask_has(m, e) && (e == a as u16 || e == b as u16 || e
                == c as u16)),
        triple_match(pre, u, i2, a, b, c),
    ensures
        hidden_triple_core(post, u, a, b, c),
{
    lemma_unit_bounds(u, i2);
    assert(triple_match(post, u, i2, a, b, c));
    assert forall|i3: int| 0 <= i3 < 9 implies #[trigger] triple_match(post, u, i3, a, b, c)
        == triple_match(pre, u, i3, a, b, c) by {
        lemma_unit_bounds(u, i3);
        if i3 != i2 {
            lemma_unit_inj(u, i3, i2);
        }
    }
    lemma_triple_count_congruent(post, pre, u, a, b, c, 9);
    assert(!unit_has_known(post, u, a)) by {
        if unit_has_known(post, u, a) {
            let iw = choose|iw: int| 0 <= iw < 9 && post[unit_idx(u, iw)] == Cell::Known(a);
            lemma_unit_bounds(u, iw);
            if iw != i2 {
                lemma_unit_inj(u, iw, i2);
            }
            assert(pre[unit_idx(u, iw)] == Cell::Known(a));
        }
    }
    assert(!unit_has_known(post, u, b)) by {
        if unit_has_known(post, u, b) {
            let iw = choose|iw: int| 0 <= iw < 9 && post[unit_idx(u, iw)] == Cell::Known(b);
            lemma_unit_bounds(u, iw);
            if iw != i2 {
                lemma_unit_inj(u, iw, i2);
            }
            assert(pre[unit_idx(u, iw)] == Cell::Known(b));
        }
    }
    assert(!unit_has_known(post, u, c)) by {
        if unit_has_known(post, u, c) {
            let iw = choose|iw: int| 0 <= iw < 9 && post[unit_idx(u, iw)] == Cell::Known(c);
            lemma_unit_bounds(u, iw);
            if iw != i2 {
                lemma_unit_inj(u, iw, i2);
            }
            assert(pre[unit_idx(u, iw)] == Cell::Known(c));
        }
    }
}

/// Equal match status cell for cell gives an equal match count.
proof fn lemma_triple_count_congruent(g1: Seq<Cell>, g2: Seq<Cell>, u: int, a: u8, b: u8, c: u8, n: int)
    requires
        forall|i: int|
            0 <= i < n ==> #[trigger] triple_match(g1, u, i, a, b, c) == triple_match(
                g2,
                u,
                i,
                a,
                b,
                c,
            ),
    ensures
        triple_match_count(g1, u, a, b, c, n) == triple_match_count(g2, u, a, b, c, n),
    decreases n,
{
    if n > 0 {
        lemma_triple_count_congruent(g1, g2, u, a, b, c, n - 1);
    }
}

/// Write a refined cell back, keeping the narrowing chain from the ghost
/// baseline `g0` and the exact changed-flag relative to it.
#[verifier::loop_isolation(false)]
fn set_narrowed(
    board: &mut Board,
    row: usize,
    col: usize,
    c: Cell,
    changed: bool,
    Ghost(g0): Ghost<Seq<Cell>>,
) -> (r: bool)
    requires
        old(board).wf(),
        row < 9,
        col < 9,
        grid_narrows(g0, old(board)@),
        changed == (old(board)@ != g0),
        cell_narrows(old(board)@[row as int * 9 + col as int], c),
        cell_wf(c),
    ensures
        final(board).wf(),
        final(board)@ == old(board)@.update(row as int * 9 + col as int, c),
        grid_narrows(g0, final(board)@),
        grid_narrows(old(board)@, final(board)@),
        r == (final(board)@ != g0),
{
    let ghost k = row as int * 9 + col as int;
    let cur = board.get(row, col);
    proof {
        lemma_grid_update_narrows(board@, k, c);
        lemma_grid_narrows_trans(g0, board@, board@.update(k, c));
        assert forall|k2: int| 0 <= k2 < 81 implies cell_wf(#[trigger] board@.update(k, c)[k2]) by {
            if k2 != k {
                assert(board@.update(k, c)[k2] == board@[k2]);
            }
        }
    }
    if c == cur {
        proof {
            assert(board@ =~= board@.update(k, c));
        }
        changed
    } else {
        proof {
            if changed {
                lemma_grid_changed_stays(g0, board@, board@.update(k, c));
            } else {
                assert(board@ == g0);
                assert(board@.update(k, c)[k] == c);
                assert(g0[k] == cur);
            }
        }
        board.set_cell(row, col, c);
        true
    }
}

/// Remove candidate `d` from the cell at the given position, promoting the
/// cell if a single candidate remains; a no-op on determined cells and cells
/// without that candidate.
#[verifier::loop_isolation(false)]
fn remove_cand(
    board: &mut Board,
    row: usize,
    col: usize,
    d: u8,
    changed: bool,
    Ghost(g0): Ghost<Seq<Cell>>,
) -> (r: bool)
    requires
        old(board).wf(),
        row < 9,
        col < 9,
        1 <= d <= 9,
        grid_narrows(g0, old(board)@),
        changed == (old(board)@ != g0),
    ensures
        final(board).wf(),
        grid_narrows(g0, final(board)@),
        grid_narrows(old(board)@, final(board)@),
        r == (final(board)@ != g0),
        forall|k2: int|
            0 <= k2 < 81 && k2 != row as int * 9 + col as int ==> final(board)@[k2] == old(
                board,
            )@[k2],
        !cell_has(old(board)@[row as int * 9 + col as int], d as u16) ==> final(board)@ == old(
            board,
        )@ && r == changed,
        cell_has(old(board)@[row as int * 9 + col as int], d as u16) ==> r,
        !cell_has(final(board)@[row as int * 9 + col as int], d as u16),
        // A completion that avoids the struck digit at this cell survives.
        forall|s: Seq<u8>|
            #[trigger] solution_of(old(board)@, s) && s[row as int * 9 + col as int] != d
                ==> solution_of(final(board)@, s),
{
    let ghost k = row as int * 9 + col as int;
    let cur = board.get(row, col);
    match cur {
        Cell::Known(_) => changed,
        Cell::Possible(m) => {
            if !mask_test(m, d) {
                changed
            } else {
                let m2 = mask_clear(m, d);
                let mut nc = Cell::Possible(m2);
                nc.check();
                proof {
                    assert(cell_wf(board@[k]));
                    assert(mask_wf(m));
                    assert(!mask_has(m2, d as u16));
                    assert(nc != cur);
                    assert(cell_narrows(cur, nc));
                }
                let ghost pre = board@;
                let r = set_narrowed(board, row, col, nc, changed, Ghost(g0));
                proof {
                    if !r {
                        // The write put a changed cell at `k`, yet the grid
                        // ended back at the baseline: a narrowing chain
                        // cannot do that.
                        lemma_grid_narrows_sandwich(g0, pre, board@);
                        assert(board@[k] == nc && pre[k] == cur);
                        assert(false);
                    }
                    assert(board@[k] == nc);
                    if nc is Known {
                        assert(mask_has(m2, cell_val(nc) as u16));
                        assert(cell_val(nc) as u16 != d as u16);
                    }
                    assert forall|s: Seq<u8>|
                        #[trigger] solution_of(pre, s) && s[k] != d implies solution_of(
                        board@,
                        s,
                    ) by {
                        assert(cell_has(Cell::Possible(m), s[k] as u16));
                        assert(mask_has(m2, s[k] as u16));
                        if nc is Known {
                            assert(mask_wf(m2));
                            crate::mask::lemma_card_one_unique(
                                m2,
                                cell_val(nc) as u16,
                                s[k] as u16,
                            );
                        }
                        lemma_solution_update(pre, s, k, nc);
                    }
                }
                r
            }
        },
    }
}

/// One strike-and-check step of the basic elimination, in full: replacing
/// an undetermined cell by its candidates minus the unit's determined
/// digits (promoted if one candidate remains) keeps the determined-digit
/// bookkeeping exact, keeps struck digits struck, strikes nothing that was
/// not determined, promotes only undetermined digits, and preserves every
/// valid completion.
proof fn lemma_collection_strike_step(
    g0: Seq<Cell>,
    pre: Seq<Cell>,
    post: Seq<Cell>,
    u: int,
    i: int,
    present0: u16,
    present_a: u16,
    present_new: u16,
    m: u16,
    m2: u16,
    nc: Cell,
)
    requires
        grid_wf(pre),
        0 <= u < 27,
        0 <= i < 9,
        post == pre.update(unit_idx(u, i), nc),
        pre[unit_idx(u, i)] == Cell::Possible(m),
        forall|e: u16| mask_has(m2, e) <==> (mask_has(m, e) && !mask_has(present_a, e)),
        nc is Possible ==> nc == Cell::Possible(m2),
        nc is Known ==> mask_card(m2) == 1 && mask_has(m2, cell_val(nc) as u16) && 1 <= cell_val(
            nc,
        ) <= 9 && mask_wf(m2),
        mask_sub(present0, present_a),
        forall|dd: u16|
            #[trigger] mask_has(present_a, dd) <==> (1 <= dd <= 9 && exists|j: int|
                0 <= j < 9 && pre[unit_idx(u, j)] == Cell::Known(dd as u8)),
        nc is Known ==> forall|e: u16|
            mask_has(present_new, e) <==> (mask_has(present_a, e) || e == cell_val(nc) as u16),
        nc is Possible ==> present_new == present_a,
        forall|i2: int, dd: u16|
            0 <= i2 < i && mask_has(present0, dd) && pre[unit_idx(u, i2)] is Possible ==> !(
            #[trigger] cell_has(pre[unit_idx(u, i2)], dd)),
        forall|i2: int, dd: u16|
            0 <= i2 < 9 && !mask_has(present_a, dd) && cell_has(g0[unit_idx(u, i2)], dd)
                && pre[unit_idx(u, i2)] is Possible ==> #[trigger] cell_has(
                pre[unit_idx(u, i2)],
                dd,
            ),
        forall|i2: int|
            0 <= i2 < 9 && g0[unit_idx(u, i2)] is Possible && (#[trigger] pre[unit_idx(
                u,
                i2,
            )]) is Known ==> !mask_has(present0, cell_val(pre[unit_idx(u, i2)]) as u16),
        forall|i2: int, j2: int|
            0 <= i2 < j2 < i && g0[unit_idx(u, i2)] is Possible && (#[trigger] pre[unit_idx(
                u,
                i2,
            )]) is Known && (#[trigger] pre[unit_idx(u, j2)]) is Possible ==> !cell_has(
                pre[unit_idx(u, j2)],
                cell_val(pre[unit_idx(u, i2)]) as u16,
            ),
        forall|i2: int|
            0 <= i2 < i && (#[trigger] pre[unit_idx(u, i2)]) is Possible ==> mask_card(
                cell_mask(pre[unit_idx(u, i2)]),
            ) != 1,
        nc is Possible ==> mask_card(m2) != 1,
    ensures
        forall|dd: u16|
            #[trigger] mask_has(present_new, dd) <==> (1 <= dd <= 9 && exists|j: int|
                0 <= j < 9 && post[unit_idx(u, j)] == Cell::Known(dd as u8)),
        forall|i2: int, dd: u16|
            0 <= i2 < i + 1 && mask_has(present0, dd) && post[unit_idx(u, i2)] is Possible ==> !(
            #[trigger] cell_has(post[unit_idx(u, i2)], dd)),
        forall|i2: int, dd: u16|
            0 <= i2 < 9 && !mask_has(present_new, dd) && cell_has(g0[unit_idx(u, i2)], dd)
                && post[unit_idx(u, i2)] is Possible ==> #[trigger] cell_has(
                post[unit_idx(u, i2)],
                dd,
            ),
        forall|i2: int|
            0 <= i2 < 9 && g0[unit_idx(u, i2)] is Possible && (#[trigger] post[unit_idx(
                u,
                i2,
            )]) is Known ==> !mask_has(present0, cell_val(post[unit_idx(u, i2)]) as u16),
        forall|i2: int, j2: int|
            0 <= i2 < j2 < i + 1 && g0[unit_idx(u, i2)] is Possible && (#[trigger] post[unit_idx(
                u,
                i2,
            )]) is Known && (#[trigger] post[unit_idx(u, j2)]) is Possible ==> !cell_has(
                post[unit_idx(u, j2)],
                cell_val(post[unit_idx(u, i2)]) as u16,
            ),
        forall|i2: int|
            0 <= i2 < i + 1 && (#[trigger] post[unit_idx(u, i2)]) is Possible ==> mask_card(
                cell_mask(post[unit_idx(u, i2)]),
            ) != 1,
        forall|s: Seq<u8>| #[trigger] solution_of(pre, s) ==> solution_of(post, s),
{
    let k = unit_idx(u, i);
    lemma_unit_bounds(u, i);
    assert forall|s: Seq<u8>| #[trigger] solution_of(pre, s) implies solution_of(post, s) by {
        assert(cell_has(Cell::Possible(m), s[k] as u16));
        assert(!mask_has(present_a, s[k] as u16)) by {
            if mask_has(present_a, s[k] as u16) {
                let j = choose|j: int|
                    0 <= j < 9 && pre[unit_idx(u, j)] == Cell::Known((s[k] as u16) as u8);
                lemma_unit_bounds(u, j);
                assert(j != i);
                assert(s[unit_idx(u, j)] == s[k]);
            }
        }
        assert(mask_has(m2, s[k] as u16));
        if nc is Known {
            lemma_card_one_unique(m2, cell_val(nc) as u16, s[k] as u16);
        }
        lemma_solution_update(pre, s, k, nc);
    }
    assert forall|dd: u16| #[trigger] mask_has(present_new, dd) implies (1 <= dd <= 9 && exists|
        j: int,
    |
        0 <= j < 9 && post[unit_idx(u, j)] == Cell::Known(dd as u8)) by {
        if mask_has(present_a, dd) {
            let j = choose|j: int| 0 <= j < 9 && pre[unit_idx(u, j)] == Cell::Known(dd as u8);
            lemma_unit_bounds(u, j);
            assert(j != i);
            lemma_unit_inj(u, j, i);
            assert(post[unit_idx(u, j)] == Cell::Known(dd as u8));
        } else {
            assert(nc is Known && dd == cell_val(nc) as u16);
            assert(post[unit_idx(u, i)] == Cell::Known(dd as u8));
        }
    }
    assert forall|dd: u16|
        (1 <= dd <= 9 && exists|j: int| 0 <= j < 9 && post[unit_idx(u, j)] == Cell::Known(
            dd as u8,
        )) implies #[trigger] mask_has(present_new, dd) by {
        let j = choose|j: int| 0 <= j < 9 && post[unit_idx(u, j)] == Cell::Known(dd as u8);
        lemma_unit_bounds(u, j);
        if j != i {
            lemma_unit_inj(u, j, i);
            assert(pre[unit_idx(u, j)] == Cell::Known(dd as u8));
            assert(mask_has(present_a, dd));
        } else {
            assert(nc == Cell::Known(dd as u8));
        }
    }
    assert forall|i2: int, dd: u16|
        0 <= i2 < i + 1 && mask_has(present0, dd) && post[unit_idx(u, i2)] is Possible implies !(
    #[trigger] cell_has(post[unit_idx(u, i2)], dd)) by {
        lemma_unit_bounds(u, i2);
        if i2 == i {
            assert(post[unit_idx(u, i2)] == nc);
            assert(mask_has(present_a, dd));
        } else {
            lemma_unit_inj(u, i2, i);
            assert(post[unit_idx(u, i2)] == pre[unit_idx(u, i2)]);
        }
    }
    assert forall|i2: int, dd: u16|
        0 <= i2 < 9 && !mask_has(present_new, dd) && cell_has(g0[unit_idx(u, i2)], dd)
            && post[unit_idx(u, i2)] is Possible implies #[trigger] cell_has(
        post[unit_idx(u, i2)],
        dd,
    ) by {
        lemma_unit_bounds(u, i2);
        assert(!mask_has(present_a, dd));
        if i2 == i {
            assert(post[unit_idx(u, i2)] == nc);
            assert(cell_has(pre[unit_idx(u, i)], dd));
            assert(mask_has(m2, dd));
        } else {
            lemma_unit_inj(u, i2, i);
            assert(post[unit_idx(u, i2)] == pre[unit_idx(u, i2)]);
        }
    }
    assert forall|i2: int|
        0 <= i2 < 9 && g0[unit_idx(u, i2)] is Possible && (#[trigger] post[unit_idx(
            u,
            i2,
        )]) is Known implies !mask_has(present0, cell_val(post[unit_idx(u, i2)]) as u16) by {
        lemma_unit_bounds(u, i2);
        if i2 == i {
            assert(post[unit_idx(u, i2)] == nc);
            assert(!mask_has(present_a, cell_val(nc) as u16));
        } else {
            lemma_unit_inj(u, i2, i);
            assert(post[unit_idx(u, i2)] == pre[unit_idx(u, i2)]);
        }
    }
    assert forall|i2: int, j2: int|
        0 <= i2 < j2 < i + 1 && g0[unit_idx(u, i2)] is Possible && (#[trigger] post[unit_idx(
            u,
            i2,
        )]) is Known && (#[trigger] post[unit_idx(u, j2)]) is Possible implies !cell_has(
        post[unit_idx(u, j2)],
        cell_val(post[unit_idx(u, i2)]) as u16,
    ) by {
        lemma_unit_bounds(u, i2);
        lemma_unit_bounds(u, j2);
        if j2 == i {
            lemma_unit_inj(u, i2, i);
            assert(post[unit_idx(u, i2)] == pre[unit_idx(u, i2)]);
            assert(post[unit_idx(u, j2)] == nc);
            // The earlier promoted digit sits in the determined-digit mask,
            // so the strike removed it from this cell.
            let v = cell_val(pre[unit_idx(u, i2)]);
            assert(cell_wf(pre[unit_idx(u, i2)]));
            assert(pre[unit_idx(u, i2)] == Cell::Known((v as u16) as u8));
            assert(mask_has(present_a, v as u16));
        } else {
            lemma_unit_inj(u, j2, i);
            assert(post[unit_idx(u, j2)] == pre[unit_idx(u, j2)]);
            if i2 == i {
                assert(post[unit_idx(u, i2)] == nc);
            } else {
                lemma_unit_inj(u, i2, i);
                assert(post[unit_idx(u, i2)] == pre[unit_idx(u, i2)]);
            }
        }
    }
    assert forall|i2: int|
        0 <= i2 < i + 1 && (#[trigger] post[unit_idx(u, i2)]) is Possible implies mask_card(
        cell_mask(post[unit_idx(u, i2)]),
    ) != 1 by {
        lemma_unit_bounds(u, i2);
        if i2 == i {
            assert(post[unit_idx(u, i2)] == nc);
        } else {
            lemma_unit_inj(u, i2, i);
            assert(post[unit_idx(u, i2)] == pre[unit_idx(u, i2)]);
        }
    }
}

/// One hidden-single promotion step, in full: determining the one cell of
/// the unit that still lists a missing digit keeps the determined-digit
/// bookkeeping exact, keeps struck digits struck and unstruck digits
/// listed, keeps promotions fresh, strikes the digit's cascade, leaves no
/// naked single behind, and preserves every valid completion.
proof fn lemma_collection_promote_step(
    g0: Seq<Cell>,
    pre: Seq<Cell>,
    post: Seq<Cell>,
    u: int,
    hold: int,
    present0: u16,
    present_a: u16,
    present_new: u16,
    d: u8,
)
    requires
        grid_wf(pre),
        0 <= u < 27,
        0 <= hold < 9,
        1 <= d <= 9,
        post == pre.update(unit_idx(u, hold), Cell::Known(d)),
        cell_has(pre[unit_idx(u, hold)], d as u16),
        single_count(pre, u, d, 9) == 1,
        !mask_has(present_a, d as u16),
        mask_sub(present0, present_a),
        forall|dd: u16|
            #[trigger] mask_has(present_a, dd) <==> (1 <= dd <= 9 && exists|j: int|
                0 <= j < 9 && pre[unit_idx(u, j)] == Cell::Known(dd as u8)),
        forall|e: u16|
            mask_has(present_new, e) <==> (mask_has(present_a, e) || e == d as u16),
        forall|i2: int, dd: u16|
            0 <= i2 < 9 && mask_has(present0, dd) && pre[unit_idx(u, i2)] is Possible ==> !(
            #[trigger] cell_has(pre[unit_idx(u, i2)], dd)),
        forall|i2: int, dd: u16|
            0 <= i2 < 9 && !mask_has(present_a, dd) && cell_has(g0[unit_idx(u, i2)], dd)
                && pre[unit_idx(u, i2)] is Possible ==> #[trigger] cell_has(
                pre[unit_idx(u, i2)],
                dd,
            ),
        forall|i2: int|
            0 <= i2 < 9 && g0[unit_idx(u, i2)] is Possible && (#[trigger] pre[unit_idx(
                u,
                i2,
            )]) is Known ==> !mask_has(present0, cell_val(pre[unit_idx(u, i2)]) as u16),
        forall|i2: int, j2: int|
            0 <= i2 < j2 < 9 && g0[unit_idx(u, i2)] is Possible && (#[trigger] pre[unit_idx(
                u,
                i2,
            )]) is Known && (#[trigger] pre[unit_idx(u, j2)]) is Possible ==> !cell_has(
                pre[unit_idx(u, j2)],
                cell_val(pre[unit_idx(u, i2)]) as u16,
            ),
        forall|i2: int|
            0 <= i2 < 9 && (#[trigger] pre[unit_idx(u, i2)]) is Possible ==> mask_card(
                cell_mask(pre[unit_idx(u, i2)]),
            ) != 1,
    ensures
        forall|dd: u16|
            #[trigger] mask_has(present_new, dd) <==> (1 <= dd <= 9 && exists|j: int|
                0 <= j < 9 && post[unit_idx(u, j)] == Cell::Known(dd as u8)),
        forall|i2: int, dd: u16|
            0 <= i2 < 9 && mask_has(present0, dd) && post[unit_idx(u, i2)] is Possible ==> !(
            #[trigger] cell_has(post[unit_idx(u, i2)], dd)),
        forall|i2: int, dd: u16|
            0 <= i2 < 9 && !mask_has(present_new, dd) && cell_has(g0[unit_idx(u, i2)], dd)
                && post[unit_idx(u, i2)] is Possible ==> #[trigger] cell_has(
                post[unit_idx(u, i2)],
                dd,
            ),
        forall|i2: int|
            0 <= i2 < 9 && g0[unit_idx(u, i2)] is Possible && (#[trigger] post[unit_idx(
                u,
                i2,
            )]) is Known ==> !mask_has(present0, cell_val(post[unit_idx(u, i2)]) as u16),
        forall|i2: int, j2: int|
            0 <= i2 < j2 < 9 && g0[unit_idx(u, i2)] is Possible && (#[trigger] post[unit_idx(
                u,
                i2,
            )]) is Known && (#[trigger] post[unit_idx(u, j2)]) is Possible ==> !cell_has(
                post[unit_idx(u, j2)],
                cell_val(post[unit_idx(u, i2)]) as u16,
            ),
        forall|i2: int|
            0 <= i2 < 9 && (#[trigger] post[unit_idx(u, i2)]) is Possible ==> mask_card(
                cell_mask(post[unit_idx(u, i2)]),
            ) != 1,
        forall|s: Seq<u8>| #[trigger] solution_of(pre, s) ==> solution_of(post, s),
{
    let k = unit_idx(u, hold);
    lemma_unit_bounds(u, hold);
    assert(!unit_has_known(pre, u, d)) by {
        if unit_has_known(pre, u, d) {
            assert(mask_has(present_a, (d as u16)));
        }
    }
    assert(hidden_single_applies(pre, u, d));
    // Every valid completion survives: it must put the digit
    // in the one cell that still lists it.
    assert forall|s: Seq<u8>| #[trigger] solution_of(pre, s)
        implies solution_of(post, s) by {
        lemma_hidden_single_sound(pre, s, u, d, hold);
        lemma_solution_update(pre, s, k, Cell::Known(d));
    }
    // The determined-digit bookkeeping stays exact.
    assert forall|dd: u16| #[trigger] mask_has(present_new, dd) implies (1 <= dd <= 9
        && exists|j: int|
        0 <= j < 9 && post[unit_idx(u, j)] == Cell::Known(dd as u8)) by {
        if mask_has(present_a, dd) {
            let j = choose|j: int|
                0 <= j < 9 && pre[unit_idx(u, j)] == Cell::Known(dd as u8);
            lemma_unit_bounds(u, j);
            assert(j != hold);
            lemma_unit_inj(u, j, hold);
            assert(post[unit_idx(u, j)] == Cell::Known(dd as u8));
        } else {
            assert(dd == d as u16);
            assert(post[unit_idx(u, hold)] == Cell::Known(
                dd as u8,
            ));
        }
    }
    assert forall|dd: u16|
        (1 <= dd <= 9 && exists|j: int|
            0 <= j < 9 && post[unit_idx(u, j)] == Cell::Known(dd as u8))
            implies #[trigger] mask_has(present_new, dd) by {
        let j = choose|j: int|
            0 <= j < 9 && post[unit_idx(u, j)] == Cell::Known(dd as u8);
        lemma_unit_bounds(u, j);
        if j != hold {
            lemma_unit_inj(u, j, hold);
            assert(pre[unit_idx(u, j)] == Cell::Known(dd as u8));
            assert(mask_has(present_a, dd));
        } else {
            assert(dd == d as u16);
        }
    }
    // Struck digits stay struck: the promoted cell leaves
    // the undetermined cells, the rest are untouched.
    assert forall|i2: int, dd: u16|
        0 <= i2 < 9 && mask_has(present0, dd) && post[unit_idx(
            u,
            i2,
        )] is Possible implies !(#[trigger] cell_has(
        post[unit_idx(u, i2)],
        dd,
    )) by {
        lemma_unit_bounds(u, i2);
        if i2 != hold {
            lemma_unit_inj(u, i2, hold);
            assert(post[unit_idx(u, i2)] == pre[unit_idx(u, i2)]);
        }
    }
    // Unstruck digits stay listed, promotions stay fresh.
    assert forall|i2: int, dd: u16|
        0 <= i2 < 9 && !mask_has(present_new, dd) && cell_has(
            g0[unit_idx(u, i2)],
            dd,
        ) && post[unit_idx(u, i2)] is Possible implies #[trigger] cell_has(
        post[unit_idx(u, i2)],
        dd,
    ) by {
        lemma_unit_bounds(u, i2);
        if i2 != hold {
            lemma_unit_inj(u, i2, hold);
            assert(post[unit_idx(u, i2)] == pre[unit_idx(u, i2)]);
            assert(!mask_has(present_a, dd));
        }
    }
    assert forall|i2: int|
        0 <= i2 < 9 && g0[unit_idx(u, i2)] is Possible && (
    #[trigger] post[unit_idx(u, i2)]) is Known implies !mask_has(
        present0,
        cell_val(post[unit_idx(u, i2)]) as u16,
    ) by {
        lemma_unit_bounds(u, i2);
        if i2 != hold {
            lemma_unit_inj(u, i2, hold);
            assert(post[unit_idx(u, i2)] == pre[unit_idx(u, i2)]);
        }
    }
    // The promoted cell leaves the undetermined cells;
    // elsewhere nothing moves.
    assert forall|i4: int|
        0 <= i4 < 9 && (#[trigger] post[unit_idx(u, i4)]) is Possible
        implies mask_card(cell_mask(post[unit_idx(u, i4)])) != 1 by {
        lemma_unit_bounds(u, i4);
        if i4 != hold {
            lemma_unit_inj(u, i4, hold);
            assert(post[unit_idx(u, i4)] == pre[unit_idx(u, i4)]);
        }
    }
    // The digit's one home is taken; no later cell lists it.
    assert forall|i4: int, j4: int|
        0 <= i4 < j4 < 9 && g0[unit_idx(u, i4)] is Possible && (
    #[trigger] post[unit_idx(u, i4)]) is Known && (#[trigger] post[unit_idx(
        u,
        j4,
    )]) is Possible implies !cell_has(
        post[unit_idx(u, j4)],
        cell_val(post[unit_idx(u, i4)]) as u16,
    ) by {
        lemma_unit_bounds(u, i4);
        lemma_unit_bounds(u, j4);
        if j4 == hold {
            assert(post[unit_idx(u, j4)] == Cell::Known(d));
        } else {
            lemma_unit_inj(u, j4, hold);
            assert(post[unit_idx(u, j4)] == pre[unit_idx(u, j4)]);
            if i4 == hold {
                assert(post[unit_idx(u, i4)] == Cell::Known(d));
                let pcur = |i5: int|
                    cell_has(pre[unit_idx(u, i5)], d as u16);
                lemma_single_count_is_idx_count(pre, u, d, 9);
                if cell_has(pre[unit_idx(u, j4)], d as u16) {
                    lemma_idx_count_two(pcur, j4, hold, 9);
                }
            } else {
                lemma_unit_inj(u, i4, hold);
                assert(post[unit_idx(u, i4)] == pre[unit_idx(
                    u,
                    i4,
                )]);
            }
        }
    }
}

/// Where the grid admits a completion, a hidden single that is forced
/// `Known` is forced to exactly its digit: the completion places the digit
/// at its one home and survives the call.
proof fn lemma_hidden_single_pinned(g0: Seq<Cell>, gfin: Seq<Cell>, u: int)
    requires
        0 <= u < 27,
        forall|s: Seq<u8>| #[trigger] solution_of(g0, s) ==> solution_of(gfin, s),
        forall|d2: u8|
            1 <= d2 <= 9 && #[trigger] hidden_single_applies(g0, u, d2) ==> forall|i3: int|
                0 <= i3 < 9 && #[trigger] cell_has(g0[unit_idx(u, i3)], d2 as u16) ==> gfin[unit_idx(
                    u,
                    i3,
                )] is Known,
    ensures
        forall|d2: u8, i2: int|
            #![trigger hidden_single_applies(g0, u, d2), g0[unit_idx(u, i2)]]
            1 <= d2 <= 9 && 0 <= i2 < 9 && hidden_single_applies(g0, u, d2) && cell_has(
                g0[unit_idx(u, i2)],
                d2 as u16,
            ) && (exists|s: Seq<u8>| #[trigger] solution_of(g0, s)) ==> gfin[unit_idx(u, i2)]
                == Cell::Known(d2),
{
    assert forall|d2: u8, i2: int|
        #![trigger hidden_single_applies(g0, u, d2), g0[unit_idx(u, i2)]]
        1 <= d2 <= 9 && 0 <= i2 < 9 && hidden_single_applies(g0, u, d2) && cell_has(
            g0[unit_idx(u, i2)],
            d2 as u16,
        ) && (exists|s: Seq<u8>| #[trigger] solution_of(g0, s)) implies gfin[unit_idx(u, i2)]
        == Cell::Known(d2) by {
        lemma_unit_bounds(u, i2);
        let s = choose|s: Seq<u8>| solution_of(g0, s);
        lemma_hidden_single_sound(g0, s, u, d2, i2);
        assert(solution_of(gfin, s));
        assert(gfin[unit_idx(u, i2)] is Known);
        assert(s[unit_idx(u, i2)] == cell_val(gfin[unit_idx(u, i2)]));
        assert(cell_val(gfin[unit_idx(u, i2)]) == d2);
    }
}

/// Bookkeeping read-back: with the determined-digit mask exact for the
/// entry grid, basic elimination has no work where no candidate meets the
/// mask, and a final grid whose undetermined cells avoid the mask avoids
/// every digit determined at entry.
proof fn lemma_collection_readback(g0: Seq<Cell>, gfin: Seq<Cell>, u: int, present0: u16)
    requires
        0 <= u < 27,
        forall|dd: u16|
            #[trigger] mask_has(present0, dd) <==> (1 <= dd <= 9 && exists|j: int|
                0 <= j < 9 && g0[unit_idx(u, j)] == Cell::Known(dd as u8)),
        forall|i2: int, dd: u16|
            0 <= i2 < 9 && mask_has(present0, dd) && gfin[unit_idx(u, i2)] is Possible ==> !(
            #[trigger] cell_has(gfin[unit_idx(u, i2)], dd)),
    ensures
        forall|i2: int, d2: u8|
            0 <= i2 < 9 && 1 <= d2 <= 9 && unit_has_known(g0, u, d2) && gfin[unit_idx(
                u,
                i2,
            )] is Possible ==> !(#[trigger] cell_has(gfin[unit_idx(u, i2)], d2 as u16)),
{
    assert forall|i2: int, d2: u8|
        0 <= i2 < 9 && 1 <= d2 <= 9 && unit_has_known(g0, u, d2) && gfin[unit_idx(
            u,
            i2,
        )] is Possible implies !(#[trigger] cell_has(gfin[unit_idx(u, i2)], d2 as u16)) by {
        assert(mask_has(present0, d2 as u16)) by {
            let iw = choose|iw: int| 0 <= iw < 9 && g0[unit_idx(u, iw)] == Cell::Known(d2);
            assert(g0[unit_idx(u, iw)] == Cell::Known((d2 as u16) as u8));
        }
    }
}

/// With the determined-digit mask exact and no candidate of the unit
/// meeting it, no unit has no naked single, no hidden single and no basic
/// elimination left: the pattern of `handle_collection` is absent.
proof fn lemma_collection_quiet(g0: Seq<Cell>, u: int, present0: u16)
    requires
        0 <= u < 27,
        forall|dd: u16|
            #[trigger] mask_has(present0, dd) <==> (1 <= dd <= 9 && exists|j: int|
                0 <= j < 9 && g0[unit_idx(u, j)] == Cell::Known(dd as u8)),
        forall|i2: int, d: u16|
            0 <= i2 < 9 && #[trigger] cell_has(g0[unit_idx(u, i2)], d) ==> !mask_has(present0, d),
        forall|i2: int| 0 <= i2 < 9 ==> !(#[trigger] naked_single_at(g0, u, i2)),
        forall|d2: u8| 1 <= d2 <= 9 ==> !(#[trigger] hidden_single_applies(g0, u, d2)),
    ensures
        !collection_applies(g0, u),
{
    assert forall|i2: int, d2: u8| 0 <= i2 < 9 && 1 <= d2 <= 9 implies !basic_elim_at(
        g0,
        u,
        i2,
        d2,
    ) by {
        if basic_elim_at(g0, u, i2, d2) {
            assert(cell_has(g0[unit_idx(u, i2)], d2 as u16));
            assert(!mask_has(present0, d2 as u16));
            let iw = choose|iw: int| 0 <= iw < 9 && g0[unit_idx(u, iw)] == Cell::Known(d2);
            assert(g0[unit_idx(u, iw)] == Cell::Known((d2 as u16) as u8));
            assert(mask_has(present0, d2 as u16));
        }
    }
}

/// Basic elimination with naked and hidden singles, on one unit: strike
/// every digit already determined in the unit from the other cells of the
/// unit, promote any cell whose candidates narrow to one digit (feeding the
/// new digit back into the pass), and then determine any digit that only a
/// single cell of the unit still lists.
#[verifier::loop_isolation(false)]
#[verifier::rlimit(100)]
#[verifier::spinoff_prover]
pub fn handle_collection(board: &mut Board, u: usize) -> (changed: bool)
    requires
        old(board).wf(),
        u < 27,
    ensures
        final(board).wf(),
        grid_narrows(old(board)@, final(board)@),
        changed == (final(board)@ != old(board)@),
        forall|k: int|
            0 <= k < 81 && !unit_covers(u as int, k) ==> final(board)@[k] == old(board)@[k],
        collection_applies(old(board)@, u as int) ==> changed,
        changed ==> collection_applies(old(board)@, u as int),
        // Basic elimination is complete: a digit determined somewhere in
        // the unit at entry is listed by none of the unit's remaining
        // undetermined cells afterwards.
        forall|i: int, d: u8|
            0 <= i < 9 && 1 <= d <= 9 && unit_has_known(old(board)@, u as int, d)
                && final(board)@[unit_idx(u as int, i)] is Possible ==> !(#[trigger] cell_has(
                final(board)@[unit_idx(u as int, i)],
                d as u16,
            )),
        // A hidden single is acted on: the one cell of the unit that listed
        // a missing digit with a single home does not stay undetermined.
        forall|d: u8, i: int|
            #![trigger hidden_single_applies(old(board)@, u as int, d), old(board)@[unit_idx(u as int, i)]]
            1 <= d <= 9 && 0 <= i < 9 && hidden_single_applies(old(board)@, u as int, d)
                && cell_has(old(board)@[unit_idx(u as int, i)], d as u16)
                ==> final(board)@[unit_idx(u as int, i)] is Known,
        // A promotion takes a digit not already determined in the unit at
        // entry (and, by narrowing, one of the cell's entry candidates).
        forall|i: int|
            0 <= i < 9 && old(board)@[unit_idx(u as int, i)] is Possible
                && (#[trigger] final(board)@[unit_idx(u as int, i)]) is Known
                ==> !unit_has_known(
                old(board)@,
                u as int,
                cell_val(final(board)@[unit_idx(u as int, i)]),
            ),
        // On a satisfiable grid a hidden single takes exactly its digit.
        forall|d: u8, i: int|
            #![trigger hidden_single_applies(old(board)@, u as int, d), old(board)@[unit_idx(u as int, i)]]
            1 <= d <= 9 && 0 <= i < 9 && hidden_single_applies(old(board)@, u as int, d)
                && cell_has(old(board)@[unit_idx(u as int, i)], d as u16) && (exists|s: Seq<u8>|
                #[trigger] solution_of(old(board)@, s)) ==> final(board)@[unit_idx(u as int, i)]
                == Cell::Known(d),
        // In-pass cascade: a digit promoted at one cell is struck from every
        // later cell of the unit that remains undetermined.
        forall|i: int, j: int|
            0 <= i < j < 9 && old(board)@[unit_idx(u as int, i)] is Possible
                && (#[trigger] final(board)@[unit_idx(u as int, i)]) is Known
                && (#[trigger] final(board)@[unit_idx(u as int, j)]) is Possible ==> !cell_has(
                final(board)@[unit_idx(u as int, j)],
                cell_val(final(board)@[unit_idx(u as int, i)]) as u16,
            ),
        // No unpromoted naked single survives the call.
        forall|i: int|
            0 <= i < 9 && (#[trigger] final(board)@[unit_idx(u as int, i)]) is Possible
                ==> mask_card(cell_mask(final(board)@[unit_idx(u as int, i)])) != 1,
        forall|s: Seq<u8>|
            #[trigger] solution_of(old(board)@, s) ==> solution_of(final(board)@, s),
{
    let ghost g0 = board@;
    proof {
        lemma_grid_narrows_refl(g0);
    }
    let mut changed = false;

    // Collect the digits already determined in the unit.
    let mut present: u16 = unit_known_mask(board, u);
    let ghost present0 = present;

    // Strike the determined digits; promote any fresh singleton and feed its
    // digit back into `present` so later cells of the unit see it.
    let mut i: usize = 0;
    while i < 9
        invariant
            i <= 9,
            board.wf(),
            grid_narrows(g0, board@),
            changed == (board@ != g0),
            forall|k: int| 0 <= k < 81 && !unit_covers(u as int, k) ==> board@[k] == g0[k],
            mask_wf(present),
            mask_sub(present0, present),
            forall|dd: u16|
                #[trigger] mask_has(present, dd) <==> (1 <= dd <= 9 && exists|j: int|
                    0 <= j < 9 && board@[unit_idx(u as int, j)] == Cell::Known(dd as u8)),
            forall|i2: int, dd: u16|
                0 <= i2 < i && mask_has(present0, dd) && board@[unit_idx(u as int, i2)] is Possible
                    ==> !(#[trigger] cell_has(board@[unit_idx(u as int, i2)], dd)),
            forall|i2: int, dd: u16|
                0 <= i2 < 9 && !mask_has(present, dd) && cell_has(g0[unit_idx(u as int, i2)], dd)
                    && board@[unit_idx(u as int, i2)] is Possible ==> #[trigger] cell_has(
                    board@[unit_idx(u as int, i2)],
                    dd,
                ),
            forall|i2: int|
                0 <= i2 < 9 && g0[unit_idx(u as int, i2)] is Possible && (#[trigger] board@[unit_idx(
                    u as int,
                    i2,
                )]) is Known ==> !mask_has(
                    present0,
                    cell_val(board@[unit_idx(u as int, i2)]) as u16,
                ),
            forall|i2: int, j2: int|
                0 <= i2 < j2 < i && g0[unit_idx(u as int, i2)] is Possible && (
                #[trigger] board@[unit_idx(u as int, i2)]) is Known && (#[trigger] board@[unit_idx(
                    u as int,
                    j2,
                )]) is Possible ==> !cell_has(
                    board@[unit_idx(u as int, j2)],
                    cell_val(board@[unit_idx(u as int, i2)]) as u16,
                ),
            forall|i2: int|
                0 <= i2 < i && (#[trigger] board@[unit_idx(u as int, i2)]) is Possible
                    ==> mask_card(cell_mask(board@[unit_idx(u as int, i2)])) != 1,
            forall|s: Seq<u8>| #[trigger] solution_of(g0, s) ==> solution_of(board@, s),
            !changed ==> present == present0,
            !changed ==> forall|i2: int, d: u16|
                0 <= i2 < i && #[trigger] cell_has(g0[unit_idx(u as int, i2)], d) ==> !mask_has(
                    present0,
                    d,
                ),
            !changed ==> forall|i2: int|
                0 <= i2 < i ==> !(#[trigger] naked_single_at(g0, u as int, i2)),
            changed ==> collection_applies(g0, u as int),
        decreases 9 - i,
    {
        let (r, c) = unit_cell_pos(u, i);
        proof {
            lemma_unit_bounds(u as int, i as int);
        }
        let ghost pre = board@;
        match board.get(r, c) {
            Cell::Known(_) => {},
            Cell::Possible(m) => {
                proof {
                    assert(cell_wf(pre[unit_idx(u as int, i as int)]));
                }
                let ghost present_a = present;
                let m2 = mask_diff(m, present);
                let mut nc = Cell::Possible(m2);
                nc.check();
                if nc != Cell::Possible(m) {
                    proof {
                        assert(cell_narrows(Cell::Possible(m), nc));
                        assert(unit_covers(u as int, unit_idx(u as int, i as int)));
                        if !changed {
                            // The cell is about to change: either a present
                            // digit is struck, or an unpromoted naked single
                            // is determined. Name the pattern acted on.
                            if m2 != m {
                                assert(exists|e: u16|
                                    mask_has(m, e) && mask_has(present0, e)) by {
                                    if !(exists|e: u16|
                                        mask_has(m, e) && mask_has(present0, e)) {
                                        assert(forall|e: u16|
                                            mask_has(m2, e) == mask_has(m, e));
                                        crate::mask::lemma_mask_ext(m2, m);
                                    }
                                }
                                let e = choose|e: u16|
                                    mask_has(m, e) && mask_has(present0, e);
                                assert(1 <= e <= 9);
                                assert(cell_has(g0[unit_idx(u as int, i as int)], e));
                                assert(g0[unit_idx(u as int, i as int)] == Cell::Possible(m));
                                assert(unit_has_known(g0, u as int, e as u8)) by {
                                    assert(mask_has(present0, (e as u8) as u16));
                                }
                                assert(basic_elim_at(g0, u as int, i as int, e as u8));
                                assert(basic_elim_applies(g0, u as int));
                            } else {
                                assert(nc is Known);
                                assert(mask_card(m2) == 1);
                                assert(naked_single_at(g0, u as int, i as int));
                            }
                            assert(collection_applies(g0, u as int));
                        }
                    }
                    changed = set_narrowed(board, r, c, nc, changed, Ghost(g0));
                    proof {
                        assert(changed) by {
                            if !changed {
                                lemma_grid_update_narrows(pre, unit_idx(u as int, i as int), nc);
                                lemma_grid_narrows_sandwich(
                                    g0,
                                    pre,
                                    board@,
                                );
                            }
                        }
                    }
                    match nc {
                        Cell::Known(v) => {
                            present = mask_set(present, v);
                        },
                        Cell::Possible(_) => {},
                    }
                    proof {
                        let k = unit_idx(u as int, i as int);
                        assert(board@ == pre.update(k, nc));
                        lemma_collection_strike_step(
                            g0,
                            pre,
                            board@,
                            u as int,
                            i as int,
                            present0,
                            present_a,
                            present,
                            m,
                            m2,
                            nc,
                        );
                        assert forall|s: Seq<u8>| #[trigger] solution_of(g0, s)
                            implies solution_of(board@, s) by {
                            assert(solution_of(pre, s));
                        }
                    }
                } else {
                    proof {
                        if !changed {
                            assert forall|d: u16|
                                cell_has(#[trigger] g0[unit_idx(u as int, i as int)], d)
                                    implies !mask_has(present0, d) by {
                                assert(mask_has(m, d));
                                assert(mask_has(m2, d) == (mask_has(m, d) && !mask_has(
                                    present,
                                    d,
                                )));
                            }
                            assert(mask_card(m) != 1);
                            assert(!naked_single_at(g0, u as int, i as int));
                        }
                        // The untouched cell already lacked every determined
                        // digit, or the strike would have changed it.
                        assert forall|dd: u16|
                            mask_has(present0, dd) implies !(#[trigger] cell_has(
                            board@[unit_idx(u as int, i as int)],
                            dd,
                        )) by {
                            if mask_has(m, dd) {
                                assert(mask_has(m2, dd) == (mask_has(m, dd) && !mask_has(
                                    present_a,
                                    dd,
                                )));
                                assert(mask_has(present_a, dd));
                            }
                        }
                        // Undetermined and left alone: not a singleton, or
                        // it would have been promoted.
                        assert(mask_card(m) != 1);
                    }
                }
            },
        }
        i = i + 1;
    }

    // Hidden singles: a digit not yet determined in the unit that only one
    // cell still lists is forced into that cell.
    let ghost phase1_clean = !changed;
    let mut d: u8 = 1;
    while d <= 9
        invariant
            1 <= d <= 10,
            board.wf(),
            grid_narrows(g0, board@),
            changed == (board@ != g0),
            forall|k: int| 0 <= k < 81 && !unit_covers(u as int, k) ==> board@[k] == g0[k],
            mask_wf(present),
            mask_sub(present0, present),
            forall|dd: u16|
                #[trigger] mask_has(present, dd) <==> (1 <= dd <= 9 && exists|j: int|
                    0 <= j < 9 && board@[unit_idx(u as int, j)] == Cell::Known(dd as u8)),
            forall|i2: int, dd: u16|
                0 <= i2 < 9 && mask_has(present0, dd) && board@[unit_idx(u as int, i2)] is Possible
                    ==> !(#[trigger] cell_has(board@[unit_idx(u as int, i2)], dd)),
            forall|i2: int, dd: u16|
                0 <= i2 < 9 && !mask_has(present, dd) && cell_has(g0[unit_idx(u as int, i2)], dd)
                    && board@[unit_idx(u as int, i2)] is Possible ==> #[trigger] cell_has(
                    board@[unit_idx(u as int, i2)],
                    dd,
                ),
            forall|i2: int|
                0 <= i2 < 9 && g0[unit_idx(u as int, i2)] is Possible && (#[trigger] board@[unit_idx(
                    u as int,
                    i2,
                )]) is Known ==> !mask_has(
                    present0,
                    cell_val(board@[unit_idx(u as int, i2)]) as u16,
                ),
            forall|i2: int, j2: int|
                0 <= i2 < j2 < 9 && g0[unit_idx(u as int, i2)] is Possible && (
                #[trigger] board@[unit_idx(u as int, i2)]) is Known && (#[trigger] board@[unit_idx(
                    u as int,
                    j2,
                )]) is Possible ==> !cell_has(
                    board@[unit_idx(u as int, j2)],
                    cell_val(board@[unit_idx(u as int, i2)]) as u16,
                ),
            forall|i2: int|
                0 <= i2 < 9 && (#[trigger] board@[unit_idx(u as int, i2)]) is Possible
                    ==> mask_card(cell_mask(board@[unit_idx(u as int, i2)])) != 1,
            forall|d2: u8|
                1 <= d2 < d && #[trigger] hidden_single_applies(g0, u as int, d2) ==> forall|
                    i3: int,
                |
                    0 <= i3 < 9 && #[trigger] cell_has(g0[unit_idx(u as int, i3)], d2 as u16)
                        ==> board@[unit_idx(u as int, i3)] is Known,
            forall|s: Seq<u8>| #[trigger] solution_of(g0, s) ==> solution_of(board@, s),
            !changed ==> phase1_clean,
            !changed ==> present == present0,
            !changed ==> forall|d2: u8|
                1 <= d2 < d ==> !(#[trigger] hidden_single_applies(g0, u as int, d2)),
            changed ==> collection_applies(g0, u as int),
        decreases 10 - d,
    {
        if !mask_test(present, d) {
            let mut cnt: u8 = 0;
            let mut hold: usize = 0;
            let mut i: usize = 0;
            while i < 9
                invariant
                    i <= 9,
                    cnt <= i,
                    1 <= d <= 9,
                    cnt as nat == single_count(board@, u as int, d, i as int),
                    cnt >= 1 ==> hold < 9 && cell_has(
                        board@[unit_idx(u as int, hold as int)],
                        d as u16,
                    ),
                decreases 9 - i,
            {
                let (r, c) = unit_cell_pos(u, i);
                proof {
                    lemma_unit_bounds(u as int, i as int);
                }
                match board.get(r, c) {
                    Cell::Known(_) => {},
                    Cell::Possible(m) => {
                        if mask_test(m, d) {
                            cnt = cnt + 1;
                            hold = i;
                        }
                    },
                }
                i = i + 1;
            }
            if cnt == 1 {
                let (r, c) = unit_cell_pos(u, hold);
                let ghost pre = board@;
                let ghost present_a = present;
                proof {
                    lemma_unit_bounds(u as int, hold as int);
                    assert(cell_narrows(
                        board@[unit_idx(u as int, hold as int)],
                        Cell::Known(d),
                    ));
                    assert(unit_covers(u as int, unit_idx(u as int, hold as int)));
                    assert(!unit_has_known(pre, u as int, d)) by {
                        if unit_has_known(pre, u as int, d) {
                            assert(mask_has(present, (d as u16)));
                        }
                    }
                    assert(hidden_single_applies(pre, u as int, d));
                    if !changed {
                        assert(!unit_has_known(g0, u as int, d)) by {
                            if unit_has_known(g0, u as int, d) {
                                assert(mask_has(present0, (d as u16)));
                            }
                        }
                        assert(hidden_single_applies(g0, u as int, d));
                        assert(collection_applies(g0, u as int));
                    }
                }
                changed = set_narrowed(board, r, c, Cell::Known(d), changed, Ghost(g0));
                present = mask_set(present, d);
                proof {
                    let k = unit_idx(u as int, hold as int);
                    assert(changed) by {
                        if board@ == g0 {
                            lemma_grid_narrows_sandwich(g0, pre, board@);
                        }
                    }
                    assert(board@ == pre.update(k, Cell::Known(d)));
                    lemma_collection_promote_step(
                        g0,
                        pre,
                        board@,
                        u as int,
                        hold as int,
                        present0,
                        present_a,
                        present,
                        d,
                    );
                    assert forall|s: Seq<u8>| #[trigger] solution_of(g0, s)
                        implies solution_of(board@, s) by {
                        assert(solution_of(pre, s));
                    }
                    // Earlier hidden singles stay determined, and this one
                    // is now determined at its one home.
                    assert forall|d2: u8|
                        1 <= d2 < d + 1 && #[trigger] hidden_single_applies(
                            g0,
                            u as int,
                            d2,
                        ) implies forall|i3: int|
                        0 <= i3 < 9 && #[trigger] cell_has(g0[unit_idx(u as int, i3)], d2 as u16)
                            ==> board@[unit_idx(u as int, i3)] is Known by {
                        assert forall|i3: int|
                            0 <= i3 < 9 && #[trigger] cell_has(
                                g0[unit_idx(u as int, i3)],
                                d2 as u16,
                            ) implies board@[unit_idx(u as int, i3)] is Known by {
                            lemma_unit_bounds(u as int, i3);
                            if d2 == d {
                                assert(cell_has(g0[unit_idx(u as int, hold as int)], d as u16));
                                lemma_g0_holder_unique(g0, u as int, d, i3, hold as int);
                            } else {
                                assert(pre[unit_idx(u as int, i3)] is Known);
                                if i3 != hold as int {
                                    lemma_unit_inj(u as int, i3, hold as int);
                                }
                            }
                        }
                    }
                }
            } else {
                proof {
                    if !changed {
                        assert(!hidden_single_applies(g0, u as int, d));
                    }
                    // With no single home found, either the digit has no
                    // entry pattern here, or its one home is already
                    // determined.
                    assert forall|d2: u8|
                        1 <= d2 < d + 1 && #[trigger] hidden_single_applies(
                            g0,
                            u as int,
                            d2,
                        ) implies forall|i3: int|
                        0 <= i3 < 9 && #[trigger] cell_has(g0[unit_idx(u as int, i3)], d2 as u16)
                            ==> board@[unit_idx(u as int, i3)] is Known by {
                        assert forall|i3: int|
                            0 <= i3 < 9 && #[trigger] cell_has(
                                g0[unit_idx(u as int, i3)],
                                d2 as u16,
                            ) implies board@[unit_idx(u as int, i3)] is Known by {
                            lemma_unit_bounds(u as int, i3);
                            if d2 == d {
                                let p = |i4: int|
                                    cell_has(board@[unit_idx(u as int, i4)], d as u16);
                                lemma_single_count_is_idx_count(board@, u as int, d, 9);
                                assert forall|i4: int| 0 <= i4 < 9 && #[trigger] p(i4) implies i4
                                    == i3 by {
                                    lemma_unit_bounds(u as int, i4);
                                    assert(cell_has(g0[unit_idx(u as int, i4)], d as u16));
                                    lemma_g0_holder_unique(g0, u as int, d, i4, i3);
                                }
                                lemma_idx_count_le_one(p, i3, 9);
                                if board@[unit_idx(u as int, i3)] is Possible {
                                    assert(cell_has(board@[unit_idx(u as int, i3)], d as u16));
                                    lemma_idx_count_one(p, i3, 9);
                                }
                            }
                        }
                    }
                }
            }
        } else {
            proof {
                if !changed {
                    assert(!hidden_single_applies(g0, u as int, d)) by {
                        if hidden_single_applies(g0, u as int, d) {
                            assert(mask_has(present0, d as u16));
                            assert(unit_has_known(g0, u as int, d));
                        }
                    }
                }
                // The digit is already determined somewhere: by narrowing
                // that cell is its one entry home.
                assert forall|d2: u8|
                    1 <= d2 < d + 1 && #[trigger] hidden_single_applies(
                        g0,
                        u as int,
                        d2,
                    ) implies forall|i3: int|
                    0 <= i3 < 9 && #[trigger] cell_has(g0[unit_idx(u as int, i3)], d2 as u16)
                        ==> board@[unit_idx(u as int, i3)] is Known by {
                    assert forall|i3: int|
                        0 <= i3 < 9 && #[trigger] cell_has(g0[unit_idx(u as int, i3)], d2 as u16)
                            implies board@[unit_idx(u as int, i3)] is Known by {
                        lemma_unit_bounds(u as int, i3);
                        if d2 == d {
                            let j = choose|j: int|
                                0 <= j < 9 && board@[unit_idx(u as int, j)] == Cell::Known(
                                    (d as u16) as u8,
                                );
                            lemma_unit_bounds(u as int, j);
                            assert(cell_narrows(
                                g0[unit_idx(u as int, j)],
                                board@[unit_idx(u as int, j)],
                            ));
                            assert(cell_has(g0[unit_idx(u as int, j)], d as u16)) by {
                                if g0[unit_idx(u as int, j)] is Known {
                                    assert(g0[unit_idx(u as int, j)] == Cell::Known(d));
                                    assert(unit_has_known(g0, u as int, d));
                                }
                            }
                            lemma_g0_holder_unique(g0, u as int, d, i3, j);
                        }
                    }
                }
            }
        }
        d = d + 1;
    }

    proof {
        if !changed {
            lemma_collection_quiet(g0, u as int, present0);
        }
        // On a satisfiable grid the hidden single's digit is pinned: the
        // completion must place it at its one home, the completion survives
        // the call, and the home ends determined.
        lemma_hidden_single_pinned(g0, board@, u as int);
        // The struck-digits bookkeeping, read back through the entry grid's
        // determined digits, gives the completeness of the basic strike.
        lemma_collection_readback(g0, board@, u as int, present0);
    }
    changed
}

/// The pointing rule fires for box `b` (0..9), digit `d` and row `r`: the
/// digit is not determined in the box, every cell of the box still listing
/// it lies in row `r`, at least one does, and some cell of row `r` outside
/// the box still lists it.
pub open spec fn pointing_row_applies(g: Seq<Cell>, b: int, d: u8, r: int) -> bool {
    &&& 0 <= b < 9
    &&& 1 <= d <= 9
    &&& 0 <= r < 9
    &&& !unit_has_known(g, 18 + b, d)
    &&& exists|i: int| 0 <= i < 9 && #[trigger] cell_has(g[unit_idx(18 + b, i)], d as u16)
    &&& forall|i: int|
        0 <= i < 9 && #[trigger] cell_has(g[unit_idx(18 + b, i)], d as u16) ==> unit_row(18 + b, i)
            == r
    &&& exists|cc: int| 0 <= cc < 9 && #[trigger] cell_has(g[r * 9 + cc], d as u16) && cc / 3 != b % 3
}

/// The pointing rule fires for box `b`, digit `d` and column `c`: the digit
/// is not determined in the box, every cell of the box still listing it
/// lies in column `c`, at least one does, and some cell of column `c`
/// outside the box still lists it.
pub open spec fn pointing_col_applies(g: Seq<Cell>, b: int, d: u8, c: int) -> bool {
    &&& 0 <= b < 9
    &&& 1 <= d <= 9
    &&& 0 <= c < 9
    &&& !unit_has_known(g, 18 + b, d)
    &&& exists|i: int| 0 <= i < 9 && #[trigger] cell_has(g[unit_idx(18 + b, i)], d as u16)
    &&& forall|i: int|
        0 <= i < 9 && #[trigger] cell_has(g[unit_idx(18 + b, i)], d as u16) ==> unit_col(18 + b, i)
            == c
    &&& exists|rr: int| 0 <= rr < 9 && #[trigger] cell_has(g[rr * 9 + c], d as u16) && rr / 3 != b / 3
}

/// Pointing pairs and triples, over the whole board: where all of a box's
/// remaining spots for a digit fall on one row (or one column), the digit
/// is struck from the rest of that row (or column) outside the box.
#[verifier::loop_isolation(false)]
#[verifier::rlimit(100)]
#[verifier::spinoff_prover]
pub fn handle_pointing(board: &mut Board) -> (changed: bool)
    requires
        old(board).wf(),
    ensures
        final(board).wf(),
        grid_narrows(old(board)@, final(board)@),
        changed == (final(board)@ != old(board)@),
        (exists|b: int, d: u8, r: int| #[trigger] pointing_row_applies(old(board)@, b, d, r))
            ==> changed,
        (exists|b: int, d: u8, c: int| #[trigger] pointing_col_applies(old(board)@, b, d, c))
            ==> changed,
        changed ==> (exists|b: int, d: u8, r: int|
            #[trigger] pointing_row_applies(old(board)@, b, d, r)) || (exists|b: int, d: u8, c: int|
            #[trigger] pointing_col_applies(old(board)@, b, d, c)),
        forall|s: Seq<u8>|
            #[trigger] solution_of(old(board)@, s) ==> solution_of(final(board)@, s),
{
    let ghost g0 = board@;
    proof {
        lemma_grid_narrows_refl(g0);
    }
    let mut changed = false;
    let mut gb: usize = 0;
    while gb < 9
        invariant
            gb <= 9,
            board.wf(),
            grid_narrows(g0, board@),
            changed == (board@ != g0),
            forall|s: Seq<u8>| #[trigger] solution_of(g0, s) ==> solution_of(board@, s),
            !changed ==> forall|b: int, d2: u8, r: int|
                0 <= b < gb ==> !(#[trigger] pointing_row_applies(g0, b, d2, r)),
            !changed ==> forall|b: int, d2: u8, c: int|
                0 <= b < gb ==> !(#[trigger] pointing_col_applies(g0, b, d2, c)),
            changed ==> (exists|b: int, d2: u8, r: int|
                #[trigger] pointing_row_applies(g0, b, d2, r)) || (exists|b: int, d2: u8, c: int|
                #[trigger] pointing_col_applies(g0, b, d2, c)),
        decreases 9 - gb,
    {
        let present = unit_known_mask(board, 18 + gb);
        let ghost bs = board@;
        let mut d: u8 = 1;
        while d <= 9
            invariant
                1 <= d <= 10,
                board.wf(),
                grid_narrows(g0, board@),
                changed == (board@ != g0),
                !changed ==> bs == g0,
                forall|s: Seq<u8>| #[trigger] solution_of(g0, s) ==> solution_of(board@, s),
                forall|i: int|
                    0 <= i < 9 ==> #[trigger] board@[unit_idx(18 + gb as int, i)] == bs[unit_idx(
                        18 + gb as int,
                        i,
                    )],
                !changed ==> forall|b: int, d2: u8, r: int|
                    0 <= b < gb ==> !(#[trigger] pointing_row_applies(g0, b, d2, r)),
                !changed ==> forall|b: int, d2: u8, c: int|
                    0 <= b < gb ==> !(#[trigger] pointing_col_applies(g0, b, d2, c)),
                !changed ==> forall|d2: u8, r: int|
                    1 <= d2 < d ==> !(#[trigger] pointing_row_applies(g0, gb as int, d2, r)),
                !changed ==> forall|d2: u8, c: int|
                    1 <= d2 < d ==> !(#[trigger] pointing_col_applies(g0, gb as int, d2, c)),
                changed ==> (exists|b: int, d2: u8, r: int|
                    #[trigger] pointing_row_applies(g0, b, d2, r)) || (exists|b: int, d2: u8,
                    c: int|
                    #[trigger] pointing_col_applies(g0, b, d2, c)),
            decreases 10 - d,
        {
            if !mask_test(present, d) {
                // Find where the digit can still go within the box.
                let mut found_any = false;
                let mut row0: usize = 0;
                let mut col0: usize = 0;
                let mut row_only = true;
                let mut col_only = true;
                let ghost mut fw: int = 0;
                let ghost mut rwit: int = 0;
                let ghost mut cwit: int = 0;
                let mut i: usize = 0;
                while i < 9
                    invariant
                        i <= 9,
                        row0 < 9,
                        col0 < 9,
                        !found_any ==> row_only && col_only && forall|i2: int|
                            0 <= i2 < i ==> !(#[trigger] cell_has(
                                board@[unit_idx(18 + gb as int, i2)],
                                d as u16,
                            )),
                        found_any ==> 0 <= fw < i && cell_has(
                            board@[unit_idx(18 + gb as int, fw)],
                            d as u16,
                        ) && row0 == unit_row(18 + gb as int, fw) && col0 == unit_col(
                            18 + gb as int,
                            fw,
                        ),
                        row_only ==> forall|i2: int|
                            0 <= i2 < i && #[trigger] cell_has(
                                board@[unit_idx(18 + gb as int, i2)],
                                d as u16,
                            ) ==> unit_row(18 + gb as int, i2) == row0,
                        !row_only ==> 0 <= rwit < i && cell_has(
                            board@[unit_idx(18 + gb as int, rwit)],
                            d as u16,
                        ) && unit_row(18 + gb as int, rwit) != row0,
                        col_only ==> forall|i2: int|
                            0 <= i2 < i && #[trigger] cell_has(
                                board@[unit_idx(18 + gb as int, i2)],
                                d as u16,
                            ) ==> unit_col(18 + gb as int, i2) == col0,
                        !col_only ==> 0 <= cwit < i && cell_has(
                            board@[unit_idx(18 + gb as int, cwit)],
                            d as u16,
                        ) && unit_col(18 + gb as int, cwit) != col0,
                    decreases 9 - i,
                {
                    let (rr, cc) = unit_cell_pos(18 + gb, i);
                    proof {
                        lemma_unit_bounds(18 + gb as int, i as int);
                    }
                    match board.get(rr, cc) {
                        Cell::Known(_) => {},
                        Cell::Possible(m) => {
                            if mask_test(m, d) {
                                if !found_any {
                                    found_any = true;
                                    row0 = rr;
                                    col0 = cc;
                                    proof {
                                        fw = i as int;
                                    }
                                } else {
                                    if rr != row0 && row_only {
                                        row_only = false;
                                        proof {
                                            rwit = i as int;
                                        }
                                    }
                                    if cc != col0 && col_only {
                                        col_only = false;
                                        proof {
                                            cwit = i as int;
                                        }
                                    }
                                }
                            }
                        },
                    }
                    i = i + 1;
                }
                let ghost scan_grid = board@;
                proof {
                    assert forall|i: int|
                        0 <= i < 9 implies #[trigger] scan_grid[unit_idx(18 + gb as int, i)]
                        == bs[unit_idx(18 + gb as int, i)] by {
                        assert(board@[unit_idx(18 + gb as int, i)] == bs[unit_idx(
                            18 + gb as int,
                            i,
                        )]);
                    }
                    if found_any {
                        assert(cell_has(scan_grid[unit_idx(18 + gb as int, fw)], d as u16));
                    }
                    if row_only {
                        assert(forall|i: int|
                            0 <= i < 9 && #[trigger] cell_has(
                                scan_grid[unit_idx(18 + gb as int, i)],
                                d as u16,
                            ) ==> unit_row(18 + gb as int, i) == row0 as int);
                    }
                    if col_only {
                        assert(forall|i: int|
                            0 <= i < 9 && #[trigger] cell_has(
                                scan_grid[unit_idx(18 + gb as int, i)],
                                d as u16,
                            ) ==> unit_col(18 + gb as int, i) == col0 as int);
                    }
                }

                if found_any && row_only {
                    // Strike the digit from the rest of the row.
                    let bc = gb % 3;
                    let mut cc: usize = 0;
                    while cc < 9
                        invariant
                            cc <= 9,
                            board.wf(),
                            grid_narrows(g0, board@),
                            changed == (board@ != g0),
                            row0 < 9,
                            bc == gb % 3,
                            !changed ==> bs == g0,
                            !changed ==> scan_grid == g0,
                            !changed ==> forall|b: int, d2: u8, r: int|
                                0 <= b < gb ==> !(#[trigger] pointing_row_applies(g0, b, d2, r)),
                            !changed ==> forall|b: int, d2: u8, c: int|
                                0 <= b < gb ==> !(#[trigger] pointing_col_applies(g0, b, d2, c)),
                            !changed ==> forall|d2: u8, r: int|
                                1 <= d2 < d ==> !(#[trigger] pointing_row_applies(
                                    g0,
                                    gb as int,
                                    d2,
                                    r,
                                )),
                            !changed ==> forall|d2: u8, c: int|
                                1 <= d2 < d ==> !(#[trigger] pointing_col_applies(
                                    g0,
                                    gb as int,
                                    d2,
                                    c,
                                )),
                            forall|s: Seq<u8>|
                                #[trigger] solution_of(g0, s) ==> solution_of(board@, s),
                            forall|i: int|
                                0 <= i < 9 ==> #[trigger] board@[unit_idx(18 + gb as int, i)]
                                    == bs[unit_idx(18 + gb as int, i)],
                            !changed ==> forall|c2: int|
                                0 <= c2 < cc && c2 / 3 != gb as int % 3 ==> !(#[trigger] cell_has(
                                    g0[row0 as int * 9 + c2],
                                    d as u16,
                                )),
                            changed ==> (exists|b: int, d2: u8, r: int|
                                #[trigger] pointing_row_applies(g0, b, d2, r)) || (exists|b: int,
                                d2: u8, c: int|
                                #[trigger] pointing_col_applies(g0, b, d2, c)),
                        decreases 9 - cc,
                    {
                        if cc / 3 != bc {
                            let ghost pre = board@;
                            let ghost k = row0 as int * 9 + cc as int;
                            let r2 = remove_cand(board, row0, cc, d, changed, Ghost(g0));
                            proof {
                                if !r2 {
                                    lemma_grid_narrows_sandwich(g0, pre, board@);
                                    assert(pre == g0);
                                    assert(!cell_has(g0[row0 as int * 9 + cc as int], d as u16));
                                }
                                if r2 && !changed {
                                    // A removal on a pristine grid names the
                                    // pattern acted on.
                                    assert(pre == g0);
                                    assert(cell_has(g0[row0 as int * 9 + cc as int], d as u16));
                                    assert(!unit_has_known(g0, 18 + gb as int, d)) by {
                                        if unit_has_known(g0, 18 + gb as int, d) {
                                            assert(mask_has(present, d as u16));
                                        }
                                    }
                                    assert(pointing_row_applies(g0, gb as int, d, row0 as int));
                                }
                                // The box is untouched: the struck cell lies
                                // outside it.
                                assert forall|i: int| 0 <= i < 9 implies #[trigger] board@[unit_idx(
                                    18 + gb as int,
                                    i,
                                )] == bs[unit_idx(18 + gb as int, i)] by {
                                    lemma_unit_bounds(18 + gb as int, i);
                                    assert(unit_col(18 + gb as int, i) / 3 == gb as int % 3)
                                        by (nonlinear_arith)
                                        requires
                                            unit_col(18 + gb as int, i) == (gb as int % 3) * 3 + i
                                                % 3,
                                            0 <= i % 3 < 3,
                                            0 <= gb as int % 3,
                                    ;
                                    assert(unit_idx(18 + gb as int, i) != k);
                                    assert(board@[unit_idx(18 + gb as int, i)] == pre[unit_idx(
                                        18 + gb as int,
                                        i,
                                    )]);
                                }
                                // Every valid completion survives: if the
                                // cell listed the digit, the pattern holds
                                // here and now, with this cell as witness.
                                assert forall|s: Seq<u8>| #[trigger] solution_of(g0, s)
                                    implies solution_of(board@, s) by {
                                    assert(solution_of(pre, s));
                                    if cell_has(pre[k], d as u16) {
                                        assert(pointing_row_applies(
                                            pre,
                                            gb as int,
                                            d,
                                            row0 as int,
                                        )) by {
                                            assert(!unit_has_known(pre, 18 + gb as int, d)) by {
                                                if unit_has_known(pre, 18 + gb as int, d) {
                                                    let iw = choose|iw: int|
                                                        0 <= iw < 9 && #[trigger] pre[unit_idx(
                                                            18 + gb as int,
                                                            iw,
                                                        )] == Cell::Known(d);
                                                    assert(bs[unit_idx(18 + gb as int, iw)]
                                                        == Cell::Known(d));
                                                    assert(mask_has(present, d as u16));
                                                }
                                            }
                                            assert(cell_has(
                                                pre[unit_idx(18 + gb as int, fw)],
                                                d as u16,
                                            ));
                                            assert forall|i: int|
                                                0 <= i < 9 && #[trigger] cell_has(
                                                    pre[unit_idx(18 + gb as int, i)],
                                                    d as u16,
                                                ) implies unit_row(18 + gb as int, i)
                                                == row0 as int by {
                                                assert(cell_has(
                                                    scan_grid[unit_idx(18 + gb as int, i)],
                                                    d as u16,
                                                ));
                                            }
                                        }
                                        lemma_pointing_row_sound(
                                            pre,
                                            s,
                                            gb as int,
                                            d,
                                            row0 as int,
                                            cc as int,
                                        );
                                    }
                                }
                            }
                            changed = r2;
                        }
                        cc = cc + 1;
                    }
                }

                if found_any && col_only {
                    // Strike the digit from the rest of the column.
                    let br = gb / 3;
                    let mut rr: usize = 0;
                    while rr < 9
                        invariant
                            rr <= 9,
                            board.wf(),
                            grid_narrows(g0, board@),
                            changed == (board@ != g0),
                            col0 < 9,
                            row0 < 9,
                            br == gb / 3,
                            !changed ==> bs == g0,
                            !changed ==> scan_grid == g0,
                            !changed ==> forall|b: int, d2: u8, r: int|
                                0 <= b < gb ==> !(#[trigger] pointing_row_applies(g0, b, d2, r)),
                            !changed ==> forall|b: int, d2: u8, c: int|
                                0 <= b < gb ==> !(#[trigger] pointing_col_applies(g0, b, d2, c)),
                            !changed ==> forall|d2: u8, r: int|
                                1 <= d2 < d ==> !(#[trigger] pointing_row_applies(
                                    g0,
                                    gb as int,
                                    d2,
                                    r,
                                )),
                            !changed ==> forall|d2: u8, c: int|
                                1 <= d2 < d ==> !(#[trigger] pointing_col_applies(
                                    g0,
                                    gb as int,
                                    d2,
                                    c,
                                )),
                            !changed && found_any && row_only ==> forall|c2: int|
                                0 <= c2 < 9 && c2 / 3 != gb as int % 3 ==> !(#[trigger] cell_has(
                                    g0[row0 as int * 9 + c2],
                                    d as u16,
                                )),
                            forall|s: Seq<u8>|
                                #[trigger] solution_of(g0, s) ==> solution_of(board@, s),
                            forall|i: int|
                                0 <= i < 9 ==> #[trigger] board@[unit_idx(18 + gb as int, i)]
                                    == bs[unit_idx(18 + gb as int, i)],
                            !changed ==> forall|r2: int|
                                0 <= r2 < rr && r2 / 3 != gb as int / 3 ==> !(#[trigger] cell_has(
                                    g0[r2 * 9 + col0 as int],
                                    d as u16,
                                )),
                            changed ==> (exists|b: int, d2: u8, r: int|
                                #[trigger] pointing_row_applies(g0, b, d2, r)) || (exists|b: int,
                                d2: u8, c: int|
                                #[trigger] pointing_col_applies(g0, b, d2, c)),
                        decreases 9 - rr,
                    {
                        if rr / 3 != br {
                            let ghost pre = board@;
                            let ghost k = rr as int * 9 + col0 as int;
                            let r2 = remove_cand(board, rr, col0, d, changed, Ghost(g0));
                            proof {
                                if !r2 {
                                    lemma_grid_narrows_sandwich(g0, pre, board@);
                                    assert(pre == g0);
                                    assert(!cell_has(g0[rr as int * 9 + col0 as int], d as u16));
                                }
                                if r2 && !changed {
                                    // A removal on a pristine grid names the
                                    // pattern acted on.
                                    assert(pre == g0);
                                    assert(cell_has(g0[rr as int * 9 + col0 as int], d as u16));
                                    assert(!unit_has_known(g0, 18 + gb as int, d)) by {
                                        if unit_has_known(g0, 18 + gb as int, d) {
                                            assert(mask_has(present, d as u16));
                                        }
                                    }
                                    assert(pointing_col_applies(g0, gb as int, d, col0 as int));
                                }
                                // The box is untouched: the struck cell lies
                                // outside it.
                                assert forall|i: int| 0 <= i < 9 implies #[trigger] board@[unit_idx(
                                    18 + gb as int,
                                    i,
                                )] == bs[unit_idx(18 + gb as int, i)] by {
                                    lemma_unit_bounds(18 + gb as int, i);
                                    assert(unit_row(18 + gb as int, i) / 3 == gb as int / 3)
                                        by (nonlinear_arith)
                                        requires
                                            unit_row(18 + gb as int, i) == (gb as int / 3) * 3 + i
                                                / 3,
                                            0 <= i / 3 < 3,
                                            0 <= gb as int / 3,
                                    ;
                                    assert(unit_idx(18 + gb as int, i) != k);
                                    assert(board@[unit_idx(18 + gb as int, i)] == pre[unit_idx(
                                        18 + gb as int,
                                        i,
                                    )]);
                                }
                                // Every valid completion survives: if the
                                // cell listed the digit, the pattern holds
                                // here and now, with this cell as witness.
                                assert forall|s: Seq<u8>| #[trigger] solution_of(g0, s)
                                    implies solution_of(board@, s) by {
                                    assert(solution_of(pre, s));
                                    if cell_has(pre[k], d as u16) {
                                        assert(pointing_col_applies(
                                            pre,
                                            gb as int,
                                            d,
                                            col0 as int,
                                        )) by {
                                            assert(!unit_has_known(pre, 18 + gb as int, d)) by {
                                                if unit_has_known(pre, 18 + gb as int, d) {
                                                    let iw = choose|iw: int|
                                                        0 <= iw < 9 && #[trigger] pre[unit_idx(
                                                            18 + gb as int,
                                                            iw,
                                                        )] == Cell::Known(d);
                                                    assert(bs[unit_idx(18 + gb as int, iw)]
                                                        == Cell::Known(d));
                                                    assert(mask_has(present, d as u16));
                                                }
                                            }
                                            assert(cell_has(
                                                pre[unit_idx(18 + gb as int, fw)],
                                                d as u16,
                                            ));
                                            assert forall|i: int|
                                                0 <= i < 9 && #[trigger] cell_has(
                                                    pre[unit_idx(18 + gb as int, i)],
                                                    d as u16,
                                                ) implies unit_col(18 + gb as int, i)
                                                == col0 as int by {
                                                assert(cell_has(
                                                    scan_grid[unit_idx(18 + gb as int, i)],
                                                    d as u16,
                                                ));
                                            }
                                        }
                                        lemma_pointing_col_sound(
                                            pre,
                                            s,
                                            gb as int,
                                            d,
                                            col0 as int,
                                            rr as int,
                                        );
                                    }
                                }
                            }
                            changed = r2;
                        }
                        rr = rr + 1;
                    }
                }

                proof {
                    if !changed {
                        assert(board@ == g0);
                        assert(scan_grid == g0);
                        assert forall|r: int| !(#[trigger] pointing_row_applies(
                            g0,
                            gb as int,
                            d,
                            r,
                        )) by {
                            if pointing_row_applies(g0, gb as int, d, r) {
                                assert(found_any);
                                assert(unit_row(18 + gb as int, fw) == r);
                                assert(r == row0);
                                assert(row_only) by {
                                    if !row_only {
                                        assert(cell_has(
                                            g0[unit_idx(18 + gb as int, rwit)],
                                            d as u16,
                                        ));
                                        assert(unit_row(18 + gb as int, rwit) == r);
                                    }
                                }
                                let cx = choose|cx: int|
                                    0 <= cx < 9 && #[trigger] cell_has(g0[r * 9 + cx], d as u16)
                                        && cx / 3 != gb as int % 3;
                                assert(!cell_has(g0[row0 as int * 9 + cx], d as u16));
                                assert(false);
                            }
                        }
                        assert forall|c: int| !(#[trigger] pointing_col_applies(
                            g0,
                            gb as int,
                            d,
                            c,
                        )) by {
                            if pointing_col_applies(g0, gb as int, d, c) {
                                assert(found_any);
                                assert(unit_col(18 + gb as int, fw) == c);
                                assert(c == col0);
                                assert(col_only) by {
                                    if !col_only {
                                        assert(cell_has(
                                            g0[unit_idx(18 + gb as int, cwit)],
                                            d as u16,
                                        ));
                                        assert(unit_col(18 + gb as int, cwit) == c);
                                    }
                                }
                                let rx = choose|rx: int|
                                    0 <= rx < 9 && #[trigger] cell_has(g0[rx * 9 + c], d as u16)
                                        && rx / 3 != gb as int / 3;
                                assert(!cell_has(g0[rx * 9 + col0 as int], d as u16));
                                assert(false);
                            }
                        }
                    }
                }
            } else {
                proof {
                    if !changed {
                        assert(bs == g0);
                        assert forall|r: int| !(#[trigger] pointing_row_applies(
                            g0,
                            gb as int,
                            d,
                            r,
                        )) by {
                            if pointing_row_applies(g0, gb as int, d, r) {
                                assert(mask_has(present, d as u16));
                                assert(unit_has_known(g0, 18 + gb as int, d));
                            }
                        }
                        assert forall|c: int| !(#[trigger] pointing_col_applies(
                            g0,
                            gb as int,
                            d,
                            c,
                        )) by {
                            if pointing_col_applies(g0, gb as int, d, c) {
                                assert(mask_has(present, d as u16));
                                assert(unit_has_known(g0, 18 + gb as int, d));
                            }
                        }
                    }
                }
            }
            d = d + 1;
        }
        gb = gb + 1;
    }
    changed
}

/// Box-line reduction for a row: for row `r`, digit `d` and box `b` (0..9)
/// in the same row band, the digit is not determined in the row, every cell
/// of the row still listing it lies in box `b`, at least one does, and some
/// cell of the box off that row still lists it.
pub open spec fn blocking_row_applies(g: Seq<Cell>, r: int, d: u8, b: int) -> bool {
    &&& 0 <= r < 9
    &&& 1 <= d <= 9
    &&& 0 <= b < 9
    &&& b / 3 == r / 3
    &&& !unit_has_known(g, r, d)
    &&& exists|cc: int| 0 <= cc < 9 && #[trigger] cell_has(g[r * 9 + cc], d as u16)
    &&& forall|cc: int|
        0 <= cc < 9 && #[trigger] cell_has(g[r * 9 + cc], d as u16) ==> cc / 3 == b % 3
    &&& exists|i: int|
        0 <= i < 9 && #[trigger] cell_has(g[unit_idx(18 + b, i)], d as u16) && unit_row(18 + b, i)
            != r
}

/// Box-line reduction for a column: for column `c`, digit `d` and box `b`
/// in the same column band, the digit is not determined in the column,
/// every cell of the column still listing it lies in box `b`, at least one
/// does, and some cell of the box off that column still lists it.
pub open spec fn blocking_col_applies(g: Seq<Cell>, c: int, d: u8, b: int) -> bool {
    &&& 0 <= c < 9
    &&& 1 <= d <= 9
    &&& 0 <= b < 9
    &&& b % 3 == c / 3
    &&& !unit_has_known(g, 9 + c, d)
    &&& exists|rr: int| 0 <= rr < 9 && #[trigger] cell_has(g[rr * 9 + c], d as u16)
    &&& forall|rr: int|
        0 <= rr < 9 && #[trigger] cell_has(g[rr * 9 + c], d as u16) ==> rr / 3 == b / 3
    &&& exists|i: int|
        0 <= i < 9 && #[trigger] cell_has(g[unit_idx(18 + b, i)], d as u16) && unit_col(18 + b, i)
            != c
}

/// Box-line reduction, row version, over the whole board: where all of a
/// row's remaining spots for a digit fall inside one box, the digit is
/// struck from the rest of that box off the row.
#[verifier::loop_isolation(false)]
#[verifier::rlimit(100)]
#[verifier::spinoff_prover]
pub fn handle_blocking_row(board: &mut Board) -> (changed: bool)
    requires
        old(board).wf(),
    ensures
        final(board).wf(),
        grid_narrows(old(board)@, final(board)@),
        changed == (final(board)@ != old(board)@),
        (exists|r: int, d: u8, b: int| #[trigger] blocking_row_applies(old(board)@, r, d, b))
            ==> changed,
        changed ==> exists|r: int, d: u8, b: int|
            #[trigger] blocking_row_applies(old(board)@, r, d, b),
        forall|s: Seq<u8>|
            #[trigger] solution_of(old(board)@, s) ==> solution_of(final(board)@, s),
{
    let ghost g0 = board@;
    proof {
        lemma_grid_narrows_refl(g0);
    }
    let mut changed = false;
    let mut row: usize = 0;
    while row < 9
        invariant
            row <= 9,
            board.wf(),
            grid_narrows(g0, board@),
            changed == (board@ != g0),
            forall|s: Seq<u8>| #[trigger] solution_of(g0, s) ==> solution_of(board@, s),
            !changed ==> forall|r: int, d2: u8, b: int|
                0 <= r < row ==> !(#[trigger] blocking_row_applies(g0, r, d2, b)),
            changed ==> exists|r: int, d2: u8, b: int|
                #[trigger] blocking_row_applies(g0, r, d2, b),
        decreases 9 - row,
    {
        let present = unit_known_mask(board, row);
        let ghost bs = board@;
        let mut d: u8 = 1;
        while d <= 9
            invariant
                1 <= d <= 10,
                board.wf(),
                grid_narrows(g0, board@),
                changed == (board@ != g0),
                !changed ==> bs == g0,
                forall|s: Seq<u8>| #[trigger] solution_of(g0, s) ==> solution_of(board@, s),
                forall|i: int|
                    0 <= i < 9 ==> #[trigger] board@[unit_idx(row as int, i)] == bs[unit_idx(
                        row as int,
                        i,
                    )],
                !changed ==> forall|r: int, d2: u8, b: int|
                    0 <= r < row ==> !(#[trigger] blocking_row_applies(g0, r, d2, b)),
                !changed ==> forall|d2: u8, b: int|
                    1 <= d2 < d ==> !(#[trigger] blocking_row_applies(g0, row as int, d2, b)),
                changed ==> exists|r: int, d2: u8, b: int|
                    #[trigger] blocking_row_applies(g0, r, d2, b),
            decreases 10 - d,
        {
            if !mask_test(present, d) {
                // Find the columns of the row where the digit can still go.
                let mut found_any = false;
                let mut col0: usize = 0;
                let mut box_only = true;
                let ghost mut fw: int = 0;
                let ghost mut bwit: int = 0;
                let mut i: usize = 0;
                while i < 9
                    invariant
                        i <= 9,
                        col0 < 9,
                        !found_any ==> box_only && forall|c2: int|
                            0 <= c2 < i ==> !(#[trigger] cell_has(
                                board@[row as int * 9 + c2],
                                d as u16,
                            )),
                        found_any ==> 0 <= fw < i && cell_has(
                            board@[row as int * 9 + fw],
                            d as u16,
                        ) && col0 == fw,
                        box_only ==> forall|c2: int|
                            0 <= c2 < i && #[trigger] cell_has(board@[row as int * 9 + c2], d as u16)
                                ==> c2 / 3 == col0 as int / 3,
                        !box_only ==> 0 <= bwit < i && cell_has(
                            board@[row as int * 9 + bwit],
                            d as u16,
                        ) && bwit / 3 != col0 as int / 3,
                    decreases 9 - i,
                {
                    let (rr, cc) = unit_cell_pos(row, i);
                    proof {
                        lemma_unit_bounds(row as int, i as int);
                    }
                    match board.get(rr, cc) {
                        Cell::Known(_) => {},
                        Cell::Possible(m) => {
                            if mask_test(m, d) {
                                if !found_any {
                                    found_any = true;
                                    col0 = cc;
                                    proof {
                                        fw = i as int;
                                    }
                                } else {
                                    if cc / 3 != col0 / 3 && box_only {
                                        box_only = false;
                                        proof {
                                            bwit = i as int;
                                        }
                                    }
                                }
                            }
                        },
                    }
                    i = i + 1;
                }
                let ghost scan_grid = board@;
                proof {
                    assert forall|i: int|
                        0 <= i < 9 implies #[trigger] scan_grid[unit_idx(row as int, i)]
                        == bs[unit_idx(row as int, i)] by {
                        assert(board@[unit_idx(row as int, i)] == bs[unit_idx(row as int, i)]);
                    }
                    if found_any {
                        assert(cell_has(scan_grid[row as int * 9 + fw], d as u16));
                    }
                    if box_only {
                        assert(forall|c2: int|
                            0 <= c2 < 9 && #[trigger] cell_has(
                                scan_grid[row as int * 9 + c2],
                                d as u16,
                            ) ==> c2 / 3 == col0 as int / 3);
                    }
                }

                let bx = (row / 3) * 3 + col0 / 3;
                if found_any && box_only {
                    // Strike the digit from the rest of the box off this row.
                    let mut i2: usize = 0;
                    while i2 < 9
                        invariant
                            i2 <= 9,
                            board.wf(),
                            grid_narrows(g0, board@),
                            changed == (board@ != g0),
                            bx == (row / 3) * 3 + col0 / 3,
                            bx < 9,
                            col0 < 9,
                            !changed ==> bs == g0,
                            !changed ==> scan_grid == g0,
                            !changed ==> forall|r: int, d2: u8, b: int|
                                0 <= r < row ==> !(#[trigger] blocking_row_applies(g0, r, d2, b)),
                            !changed ==> forall|d2: u8, b: int|
                                1 <= d2 < d ==> !(#[trigger] blocking_row_applies(
                                    g0,
                                    row as int,
                                    d2,
                                    b,
                                )),
                            forall|s: Seq<u8>|
                                #[trigger] solution_of(g0, s) ==> solution_of(board@, s),
                            forall|i: int|
                                0 <= i < 9 ==> #[trigger] board@[unit_idx(row as int, i)]
                                    == bs[unit_idx(row as int, i)],
                            !changed ==> forall|i3: int|
                                0 <= i3 < i2 && unit_row(18 + bx as int, i3) != row as int
                                    ==> !(#[trigger] cell_has(
                                    g0[unit_idx(18 + bx as int, i3)],
                                    d as u16,
                                )),
                            changed ==> exists|r: int, d2: u8, b: int|
                                #[trigger] blocking_row_applies(g0, r, d2, b),
                        decreases 9 - i2,
                    {
                        let (rr2, cc2) = unit_cell_pos(18 + bx, i2);
                        proof {
                            lemma_unit_bounds(18 + bx as int, i2 as int);
                        }
                        if rr2 != row {
                            let ghost pre = board@;
                            let ghost k = unit_idx(18 + bx as int, i2 as int);
                            let r2 = remove_cand(board, rr2, cc2, d, changed, Ghost(g0));
                            proof {
                                if !r2 {
                                    lemma_grid_narrows_sandwich(g0, pre, board@);
                                    assert(pre == g0);
                                    assert(!cell_has(
                                        g0[unit_idx(18 + bx as int, i2 as int)],
                                        d as u16,
                                    ));
                                }
                                if r2 && !changed {
                                    // A removal on a pristine grid names the
                                    // pattern acted on.
                                    assert(pre == g0);
                                    assert(cell_has(
                                        g0[unit_idx(18 + bx as int, i2 as int)],
                                        d as u16,
                                    ));
                                    assert(!unit_has_known(g0, row as int, d)) by {
                                        if unit_has_known(g0, row as int, d) {
                                            assert(mask_has(present, d as u16));
                                        }
                                    }
                                    let q = row as int / 3;
                                    let w = col0 as int / 3;
                                    assert((q * 3 + w) / 3 == q && (q * 3 + w) % 3 == w)
                                        by (nonlinear_arith)
                                        requires 0 <= w < 3, 0 <= q;
                                    assert(bx as int / 3 == row as int / 3);
                                    assert(bx as int % 3 == col0 as int / 3);
                                    assert(blocking_row_applies(g0, row as int, d, bx as int));
                                }
                                // The originating row is untouched: the
                                // struck cell lies off it.
                                assert forall|i: int| 0 <= i < 9 implies #[trigger] board@[unit_idx(
                                    row as int,
                                    i,
                                )] == bs[unit_idx(row as int, i)] by {
                                    assert(unit_idx(row as int, i) != k);
                                    assert(board@[unit_idx(row as int, i)] == pre[unit_idx(
                                        row as int,
                                        i,
                                    )]);
                                }
                                // Every valid completion survives: if the
                                // cell listed the digit, the pattern holds
                                // here and now, with this cell as witness.
                                assert forall|s: Seq<u8>| #[trigger] solution_of(g0, s)
                                    implies solution_of(board@, s) by {
                                    assert(solution_of(pre, s));
                                    if cell_has(pre[k], d as u16) {
                                        let q = row as int / 3;
                                        let w = col0 as int / 3;
                                        assert((q * 3 + w) / 3 == q && (q * 3 + w) % 3 == w)
                                            by (nonlinear_arith)
                                            requires 0 <= w < 3, 0 <= q;
                                        assert(blocking_row_applies(
                                            pre,
                                            row as int,
                                            d,
                                            bx as int,
                                        )) by {
                                            assert(!unit_has_known(pre, row as int, d)) by {
                                                if unit_has_known(pre, row as int, d) {
                                                    let iw = choose|iw: int|
                                                        0 <= iw < 9 && #[trigger] pre[unit_idx(
                                                            row as int,
                                                            iw,
                                                        )] == Cell::Known(d);
                                                    assert(bs[unit_idx(row as int, iw)]
                                                        == Cell::Known(d));
                                                    assert(mask_has(present, d as u16));
                                                }
                                            }
                                            assert(pre[row as int * 9 + fw] == scan_grid[row as int
                                                * 9 + fw]) by {
                                                assert(pre[unit_idx(row as int, fw)]
                                                    == bs[unit_idx(row as int, fw)]);
                                                assert(scan_grid[unit_idx(row as int, fw)]
                                                    == bs[unit_idx(row as int, fw)]);
                                            }
                                            assert(cell_has(pre[row as int * 9 + fw], d as u16));
                                            assert forall|c2: int|
                                                0 <= c2 < 9 && #[trigger] cell_has(
                                                    pre[row as int * 9 + c2],
                                                    d as u16,
                                                ) implies c2 / 3 == bx as int % 3 by {
                                                assert(pre[unit_idx(row as int, c2)]
                                                    == scan_grid[unit_idx(row as int, c2)]);
                                                assert(cell_has(
                                                    scan_grid[row as int * 9 + c2],
                                                    d as u16,
                                                ));
                                            }
                                        }
                                        lemma_blocking_row_sound(
                                            pre,
                                            s,
                                            row as int,
                                            d,
                                            bx as int,
                                            i2 as int,
                                        );
                                    }
                                }
                            }
                            changed = r2;
                        }
                        i2 = i2 + 1;
                    }
                }

                proof {
                    if !changed {
                        assert(board@ == g0);
                        assert(scan_grid == g0);
                        assert forall|b: int| !(#[trigger] blocking_row_applies(
                            g0,
                            row as int,
                            d,
                            b,
                        )) by {
                            if blocking_row_applies(g0, row as int, d, b) {
                                assert(found_any);
                                assert(cell_has(g0[row as int * 9 + fw], d as u16));
                                assert(fw / 3 == b % 3);
                                assert(col0 as int / 3 == b % 3);
                                assert(box_only) by {
                                    if !box_only {
                                        assert(cell_has(g0[row as int * 9 + bwit], d as u16));
                                        assert(bwit / 3 == b % 3);
                                    }
                                }
                                vstd::arithmetic::div_mod::lemma_fundamental_div_mod(b, 3);
                                assert(b == (row as int / 3) * 3 + col0 as int / 3);
                                let ix = choose|ix: int|
                                    0 <= ix < 9 && #[trigger] cell_has(
                                        g0[unit_idx(18 + b, ix)],
                                        d as u16,
                                    ) && unit_row(18 + b, ix) != row as int;
                                assert(!cell_has(g0[unit_idx(18 + bx as int, ix)], d as u16));
                                assert(false);
                            }
                        }
                    }
                }
            } else {
                proof {
                    if !changed {
                        assert(bs == g0);
                        assert forall|b: int| !(#[trigger] blocking_row_applies(
                            g0,
                            row as int,
                            d,
                            b,
                        )) by {
                            if blocking_row_applies(g0, row as int, d, b) {
                                assert(mask_has(present, d as u16));
                                assert(unit_has_known(g0, row as int, d));
                            }
                        }
                    }
                }
            }
            d = d + 1;
        }
        row = row + 1;
    }
    changed
}

/// Box-line reduction, column version, over the whole board: where all of a
/// column's remaining spots for a digit fall inside one box, the digit is
/// struck from the rest of that box off the column.
#[verifier::loop_isolation(false)]
#[verifier::rlimit(100)]
#[verifier::spinoff_prover]
pub fn handle_blocking_col(board: &mut Board) -> (changed: bool)
    requires
        old(board).wf(),
    ensures
        final(board).wf(),
        grid_narrows(old(board)@, final(board)@),
        changed == (final(board)@ != old(board)@),
        (exists|c: int, d: u8, b: int| #[trigger] blocking_col_applies(old(board)@, c, d, b))
            ==> changed,
        changed ==> exists|c: int, d: u8, b: int|
            #[trigger] blocking_col_applies(old(board)@, c, d, b),
        forall|s: Seq<u8>|
            #[trigger] solution_of(old(board)@, s) ==> solution_of(final(board)@, s),
{
    let ghost g0 = board@;
    proof {
        lemma_grid_narrows_refl(g0);
    }
    let mut changed = false;
    let mut col: usize = 0;
    while col < 9
        invariant
            col <= 9,
            board.wf(),
            grid_narrows(g0, board@),
            changed == (board@ != g0),
            forall|s: Seq<u8>| #[trigger] solution_of(g0, s) ==> solution_of(board@, s),
            !changed ==> forall|c: int, d2: u8, b: int|
                0 <= c < col ==> !(#[trigger] blocking_col_applies(g0, c, d2, b)),
            changed ==> exists|c: int, d2: u8, b: int|
                #[trigger] blocking_col_applies(g0, c, d2, b),
        decreases 9 - col,
    {
        let present = unit_known_mask(board, 9 + col);
        let ghost bs = board@;
        let mut d: u8 = 1;
        while d <= 9
            invariant
                1 <= d <= 10,
                board.wf(),
                grid_narrows(g0, board@),
                changed == (board@ != g0),
                !changed ==> bs == g0,
                forall|s: Seq<u8>| #[trigger] solution_of(g0, s) ==> solution_of(board@, s),
                forall|i: int|
                    0 <= i < 9 ==> #[trigger] board@[unit_idx(9 + col as int, i)] == bs[unit_idx(
                        9 + col as int,
                        i,
                    )],
                !changed ==> forall|c: int, d2: u8, b: int|
                    0 <= c < col ==> !(#[trigger] blocking_col_applies(g0, c, d2, b)),
                !changed ==> forall|d2: u8, b: int|
                    1 <= d2 < d ==> !(#[trigger] blocking_col_applies(g0, col as int, d2, b)),
                changed ==> exists|c: int, d2: u8, b: int|
                    #[trigger] blocking_col_applies(g0, c, d2, b),
            decreases 10 - d,
        {
            if !mask_test(present, d) {
                // Find the rows of the column where the digit can still go.
                let mut found_any = false;
                let mut row0: usize = 0;
                let mut box_only = true;
                let ghost mut fw: int = 0;
                let ghost mut bwit: int = 0;
                let mut i: usize = 0;
                while i < 9
                    invariant
                        i <= 9,
                        row0 < 9,
                        !found_any ==> box_only && forall|r2: int|
                            0 <= r2 < i ==> !(#[trigger] cell_has(
                                board@[r2 * 9 + col as int],
                                d as u16,
                            )),
                        found_any ==> 0 <= fw < i && cell_has(
                            board@[fw * 9 + col as int],
                            d as u16,
                        ) && row0 == fw,
                        box_only ==> forall|r2: int|
                            0 <= r2 < i && #[trigger] cell_has(board@[r2 * 9 + col as int], d as u16)
                                ==> r2 / 3 == row0 as int / 3,
                        !box_only ==> 0 <= bwit < i && cell_has(
                            board@[bwit * 9 + col as int],
                            d as u16,
                        ) && bwit / 3 != row0 as int / 3,
                    decreases 9 - i,
                {
                    let (rr, cc) = unit_cell_pos(9 + col, i);
                    proof {
                        lemma_unit_bounds(9 + col as int, i as int);
                    }
                    match board.get(rr, cc) {
                        Cell::Known(_) => {},
                        Cell::Possible(m) => {
                            if mask_test(m, d) {
                                if !found_any {
                                    found_any = true;
                                    row0 = rr;
                                    proof {
                                        fw = i as int;
                                    }
                                } else {
                                    if rr / 3 != row0 / 3 && box_only {
                                        box_only = false;
                                        proof {
                                            bwit = i as int;
                                        }
                                    }
                                }
                            }
                        },
                    }
                    i = i + 1;
                }
                let ghost scan_grid = board@;
                proof {
                    assert forall|i: int|
                        0 <= i < 9 implies #[trigger] scan_grid[unit_idx(9 + col as int, i)]
                        == bs[unit_idx(9 + col as int, i)] by {
                        assert(board@[unit_idx(9 + col as int, i)] == bs[unit_idx(
                            9 + col as int,
                            i,
                        )]);
                    }
                    if found_any {
                        assert(cell_has(scan_grid[fw * 9 + col as int], d as u16));
                    }
                    if box_only {
                        assert(forall|r2: int|
                            0 <= r2 < 9 && #[trigger] cell_has(
                                scan_grid[r2 * 9 + col as int],
                                d as u16,
                            ) ==> r2 / 3 == row0 as int / 3);
                    }
                }

                let bx = (row0 / 3) * 3 + col / 3;
                if found_any && box_only {
                    // Strike the digit from the rest of the box off this column.
                    let mut i2: usize = 0;
                    while i2 < 9
                        invariant
                            i2 <= 9,
                            board.wf(),
                            grid_narrows(g0, board@),
                            changed == (board@ != g0),
                            bx == (row0 / 3) * 3 + col / 3,
                            bx < 9,
                            row0 < 9,
                            !changed ==> bs == g0,
                            !changed ==> scan_grid == g0,
                            !changed ==> forall|c: int, d2: u8, b: int|
                                0 <= c < col ==> !(#[trigger] blocking_col_applies(g0, c, d2, b)),
                            !changed ==> forall|d2: u8, b: int|
                                1 <= d2 < d ==> !(#[trigger] blocking_col_applies(
                                    g0,
                                    col as int,
                                    d2,
                                    b,
                                )),
                            forall|s: Seq<u8>|
                                #[trigger] solution_of(g0, s) ==> solution_of(board@, s),
                            forall|i: int|
                                0 <= i < 9 ==> #[trigger] board@[unit_idx(9 + col as int, i)]
                                    == bs[unit_idx(9 + col as int, i)],
                            !changed ==> forall|i3: int|
                                0 <= i3 < i2 && unit_col(18 + bx as int, i3) != col as int
                                    ==> !(#[trigger] cell_has(
                                    g0[unit_idx(18 + bx as int, i3)],
                                    d as u16,
                                )),
                            changed ==> exists|c: int, d2: u8, b: int|
                                #[trigger] blocking_col_applies(g0, c, d2, b),
                        decreases 9 - i2,
                    {
                        let (rr2, cc2) = unit_cell_pos(18 + bx, i2);
                        proof {
                            lemma_unit_bounds(18 + bx as int, i2 as int);
                        }
                        if cc2 != col {
                            let ghost pre = board@;
                            let ghost k = unit_idx(18 + bx as int, i2 as int);
                            let r2 = remove_cand(board, rr2, cc2, d, changed, Ghost(g0));
                            proof {
                                if !r2 {
                                    lemma_grid_narrows_sandwich(g0, pre, board@);
                                    assert(pre == g0);
                                    assert(!cell_has(
                                        g0[unit_idx(18 + bx as int, i2 as int)],
                                        d as u16,
                                    ));
                                }
                                if r2 && !changed {
                                    // A removal on a pristine grid names the
                                    // pattern acted on.
                                    assert(pre == g0);
                                    assert(cell_has(
                                        g0[unit_idx(18 + bx as int, i2 as int)],
                                        d as u16,
                                    ));
                                    assert(!unit_has_known(g0, 9 + col as int, d)) by {
                                        if unit_has_known(g0, 9 + col as int, d) {
                                            assert(mask_has(present, d as u16));
                                        }
                                    }
                                    let q = row0 as int / 3;
                                    let w = col as int / 3;
                                    assert((q * 3 + w) / 3 == q && (q * 3 + w) % 3 == w)
                                        by (nonlinear_arith)
                                        requires 0 <= w < 3, 0 <= q;
                                    assert(bx as int / 3 == row0 as int / 3);
                                    assert(bx as int % 3 == col as int / 3);
                                    assert(blocking_col_applies(g0, col as int, d, bx as int));
                                }
                                // The originating column is untouched: the
                                // struck cell lies off it.
                                assert forall|i: int| 0 <= i < 9 implies #[trigger] board@[unit_idx(
                                    9 + col as int,
                                    i,
                                )] == bs[unit_idx(9 + col as int, i)] by {
                                    assert(unit_idx(9 + col as int, i) != k);
                                    assert(board@[unit_idx(9 + col as int, i)] == pre[unit_idx(
                                        9 + col as int,
                                        i,
                                    )]);
                                }
                                // Every valid completion survives: if the
                                // cell listed the digit, the pattern holds
                                // here and now, with this cell as witness.
                                assert forall|s: Seq<u8>| #[trigger] solution_of(g0, s)
                                    implies solution_of(board@, s) by {
                                    assert(solution_of(pre, s));
                                    if cell_has(pre[k], d as u16) {
                                        let q = row0 as int / 3;
                                        let w = col as int / 3;
                                        assert((q * 3 + w) / 3 == q && (q * 3 + w) % 3 == w)
                                            by (nonlinear_arith)
                                            requires 0 <= w < 3, 0 <= q;
                                        assert(blocking_col_applies(
                                            pre,
                                            col as int,
                                            d,
                                            bx as int,
                                        )) by {
                                            assert(!unit_has_known(pre, 9 + col as int, d)) by {
                                                if unit_has_known(pre, 9 + col as int, d) {
                                                    let iw = choose|iw: int|
                                                        0 <= iw < 9 && #[trigger] pre[unit_idx(
                                                            9 + col as int,
                                                            iw,
                                                        )] == Cell::Known(d);
                                                    assert(bs[unit_idx(9 + col as int, iw)]
                                                        == Cell::Known(d));
                                                    assert(mask_has(present, d as u16));
                                                }
                                            }
                                            assert(pre[fw * 9 + col as int] == scan_grid[fw * 9
                                                + col as int]) by {
                                                assert(pre[unit_idx(9 + col as int, fw)]
                                                    == bs[unit_idx(9 + col as int, fw)]);
                                                assert(scan_grid[unit_idx(9 + col as int, fw)]
                                                    == bs[unit_idx(9 + col as int, fw)]);
                                            }
                                            assert(cell_has(pre[fw * 9 + col as int], d as u16));
                                            assert forall|r3: int|
                                                0 <= r3 < 9 && #[trigger] cell_has(
                                                    pre[r3 * 9 + col as int],
                                                    d as u16,
                                                ) implies r3 / 3 == bx as int / 3 by {
                                                assert(pre[unit_idx(9 + col as int, r3)]
                                                    == scan_grid[unit_idx(9 + col as int, r3)]);
                                                assert(cell_has(
                                                    scan_grid[r3 * 9 + col as int],
                                                    d as u16,
                                                ));
                                            }
                                        }
                                        lemma_blocking_col_sound(
                                            pre,
                                            s,
                                            col as int,
                                            d,
                                            bx as int,
                                            i2 as int,
                                        );
                                    }
                                }
                            }
                            changed = r2;
                        }
                        i2 = i2 + 1;
                    }
                }

                proof {
                    if !changed {
                        assert(board@ == g0);
                        assert(scan_grid == g0);
                        assert forall|b: int| !(#[trigger] blocking_col_applies(
                            g0,
                            col as int,
                            d,
                            b,
                        )) by {
                            if blocking_col_applies(g0, col as int, d, b) {
                                assert(found_any);
                                assert(cell_has(g0[fw * 9 + col as int], d as u16));
                                assert(fw / 3 == b / 3);
                                assert(row0 as int / 3 == b / 3);
                                assert(box_only) by {
                                    if !box_only {
                                        assert(cell_has(g0[bwit * 9 + col as int], d as u16));
                                        assert(bwit / 3 == b / 3);
                                    }
                                }
                                vstd::arithmetic::div_mod::lemma_fundamental_div_mod(b, 3);
                                assert(b == (row0 as int / 3) * 3 + col as int / 3);
                                let ix = choose|ix: int|
                                    0 <= ix < 9 && #[trigger] cell_has(
                                        g0[unit_idx(18 + b, ix)],
                                        d as u16,
                                    ) && unit_col(18 + b, ix) != col as int;
                                assert(!cell_has(g0[unit_idx(18 + bx as int, ix)], d as u16));
                                assert(false);
                            }
                        }
                    }
                }
            } else {
                proof {
                    if !changed {
                        assert(bs == g0);
                        assert forall|b: int| !(#[trigger] blocking_col_applies(
                            g0,
                            col as int,
                            d,
                            b,
                        )) by {
                            if blocking_col_applies(g0, col as int, d, b) {
                                assert(mask_has(present, d as u16));
                                assert(unit_has_known(g0, 9 + col as int, d));
                            }
                        }
                    }
                }
            }
            d = d + 1;
        }
        col = col + 1;
    }
    changed
}

/// Some elimination rule has work somewhere on the grid: a full pass over a
/// grid changes it exactly when this holds.
pub open spec fn any_rule_applies(g: Seq<Cell>) -> bool {
    ||| exists|u: int| 0 <= u < 27 && #[trigger] collection_applies(g, u)
    ||| exists|u: int, a: u8, b: u8| 0 <= u < 27 && #[trigger] hidden_pair_applies(g, u, a, b)
    ||| exists|u: int, a: u8, b: u8, c: u8|
        0 <= u < 27 && #[trigger] hidden_triple_applies(g, u, a, b, c)
    ||| exists|b: int, d: u8, r: int| #[trigger] pointing_row_applies(g, b, d, r)
    ||| exists|b: int, d: u8, c: int| #[trigger] pointing_col_applies(g, b, d, c)
    ||| exists|r: int, d: u8, b: int| #[trigger] blocking_row_applies(g, r, d, b)
    ||| exists|c: int, d: u8, b: int| #[trigger] blocking_col_applies(g, c, d, b)
}

// ---------------------------------------------------------------------------
// Soundness of the rules: no rule pattern, acted on as the rules act on it,
// ever strikes a digit that a valid completion of the grid uses. Together
// with the narrowing contracts above, this is what makes every deduction of
// the engine safe.
// ---------------------------------------------------------------------------

/// Number of indices below `n` satisfying `p`.
pub open spec fn idx_count(p: spec_fn(int) -> bool, n: int) -> nat
    decreases n,
{
    if n <= 0 {
        0
    } else {
        idx_count(p, n - 1) + (if p(n - 1) {
            1nat
        } else {
            0nat
        })
    }
}

proof fn lemma_idx_count_one(p: spec_fn(int) -> bool, i: int, n: int)
    requires
        0 <= i < n,
        p(i),
    ensures
        idx_count(p, n) >= 1,
    decreases n,
{
    if i < n - 1 {
        lemma_idx_count_one(p, i, n - 1);
    }
}

proof fn lemma_idx_count_two(p: spec_fn(int) -> bool, i: int, j: int, n: int)
    requires
        0 <= i < n,
        0 <= j < n,
        i != j,
        p(i),
        p(j),
    ensures
        idx_count(p, n) >= 2,
    decreases n,
{
    if i == n - 1 {
        lemma_idx_count_one(p, j, n - 1);
    } else if j == n - 1 {
        lemma_idx_count_one(p, i, n - 1);
    } else {
        lemma_idx_count_two(p, i, j, n - 1);
    }
}

proof fn lemma_idx_count_three(p: spec_fn(int) -> bool, i: int, j: int, k: int, n: int)
    requires
        0 <= i < n,
        0 <= j < n,
        0 <= k < n,
        i != j,
        i != k,
        j != k,
        p(i),
        p(j),
        p(k),
    ensures
        idx_count(p, n) >= 3,
    decreases n,
{
    if i == n - 1 {
        lemma_idx_count_two(p, j, k, n - 1);
    } else if j == n - 1 {
        lemma_idx_count_two(p, i, k, n - 1);
    } else if k == n - 1 {
        lemma_idx_count_two(p, i, j, n - 1);
    } else {
        lemma_idx_count_three(p, i, j, k, n - 1);
    }
}

proof fn lemma_idx_count_four(p: spec_fn(int) -> bool, i: int, j: int, k: int, l: int, n: int)
    requires
        0 <= i < n,
        0 <= j < n,
        0 <= k < n,
        0 <= l < n,
        i != j,
        i != k,
        i != l,
        j != k,
        j != l,
        k != l,
        p(i),
        p(j),
        p(k),
        p(l),
    ensures
        idx_count(p, n) >= 4,
    decreases n,
{
    if i == n - 1 {
        lemma_idx_count_three(p, j, k, l, n - 1);
    } else if j == n - 1 {
        lemma_idx_count_three(p, i, k, l, n - 1);
    } else if k == n - 1 {
        lemma_idx_count_three(p, i, j, l, n - 1);
    } else if l == n - 1 {
        lemma_idx_count_three(p, i, j, k, n - 1);
    } else {
        lemma_idx_count_four(p, i, j, k, l, n - 1);
    }
}

proof fn lemma_idx_count_zero(p: spec_fn(int) -> bool, n: int)
    requires
        forall|i: int| 0 <= i < n ==> !(#[trigger] p(i)),
    ensures
        idx_count(p, n) == 0,
    decreases n,
{
    if n > 0 {
        lemma_idx_count_zero(p, n - 1);
    }
}

proof fn lemma_idx_count_le_one(p: spec_fn(int) -> bool, i0: int, n: int)
    requires
        forall|i: int| 0 <= i < n && #[trigger] p(i) ==> i == i0,
    ensures
        idx_count(p, n) <= 1,
    decreases n,
{
    if n > 0 {
        if p(n - 1) {
            lemma_idx_count_zero(p, n - 1);
        } else {
            lemma_idx_count_le_one(p, i0, n - 1);
        }
    }
}

proof fn lemma_idx_count_pos(p: spec_fn(int) -> bool, n: int)
    requires
        idx_count(p, n) >= 1,
    ensures
        exists|i: int| 0 <= i < n && #[trigger] p(i),
    decreases n,
{
    if n > 0 && !p(n - 1) {
        lemma_idx_count_pos(p, n - 1);
    }
}

/// With a single listing cell in the unit, any two listing positions agree.
proof fn lemma_g0_holder_unique(g: Seq<Cell>, u: int, d: u8, i3: int, i0: int)
    requires
        single_count(g, u, d, 9) == 1,
        0 <= i3 < 9,
        0 <= i0 < 9,
        cell_has(g[unit_idx(u, i3)], d as u16),
        cell_has(g[unit_idx(u, i0)], d as u16),
    ensures
        i3 == i0,
{
    let p = |i2: int| cell_has(g[unit_idx(u, i2)], d as u16);
    lemma_single_count_is_idx_count(g, u, d, 9);
    if i3 != i0 {
        lemma_idx_count_two(p, i3, i0, 9);
    }
}

proof fn lemma_single_count_is_idx_count(g: Seq<Cell>, u: int, d: u8, n: int)
    ensures
        single_count(g, u, d, n) == idx_count(|i: int| cell_has(g[unit_idx(u, i)], d as u16), n),
    decreases n,
{
    if n > 0 {
        lemma_single_count_is_idx_count(g, u, d, n - 1);
    }
}

proof fn lemma_pair_count_is_idx_count(g: Seq<Cell>, u: int, a: u8, b: u8, n: int)
    ensures
        pair_match_count(g, u, a, b, n) == idx_count(|i: int| pair_match(g, u, i, a, b), n),
    decreases n,
{
    if n > 0 {
        lemma_pair_count_is_idx_count(g, u, a, b, n - 1);
    }
}

proof fn lemma_triple_count_is_idx_count(g: Seq<Cell>, u: int, a: u8, b: u8, c: u8, n: int)
    ensures
        triple_match_count(g, u, a, b, c, n) == idx_count(
            |i: int| triple_match(g, u, i, a, b, c),
            n,
        ),
    decreases n,
{
    if n > 0 {
        lemma_triple_count_is_idx_count(g, u, a, b, c, n - 1);
    }
}

/// Soundness of the hidden single: the one cell of the unit still listing a
/// missing digit takes exactly that digit in every valid completion.
pub proof fn lemma_hidden_single_sound(g: Seq<Cell>, s: Seq<u8>, u: int, d: u8, i: int)
    requires
        solution_of(g, s),
        0 <= u < 27,
        0 <= i < 9,
        hidden_single_applies(g, u, d),
        cell_has(g[unit_idx(u, i)], d as u16),
    ensures
        s[unit_idx(u, i)] == d,
{
    let p = |i2: int| cell_has(g[unit_idx(u, i2)], d as u16);
    lemma_single_count_is_idx_count(g, u, d, 9);
    lemma_solution_unit_onto(g, s, u, d);
    let j = choose|j: int| 0 <= j < 9 && s[unit_idx(u, j)] == d;
    lemma_unit_bounds(u, j);
    assert(cell_has(g[unit_idx(u, j)], d as u16)) by {
        if g[unit_idx(u, j)] is Known {
            assert(g[unit_idx(u, j)] == Cell::Known(d));
            assert(unit_has_known(g, u, d));
        }
    }
    if i != j {
        lemma_idx_count_two(p, i, j, 9);
    }
}

/// Soundness of the hidden pair: a cell carrying both digits of an applying
/// hidden pair takes one of the two in every valid completion.
pub proof fn lemma_hidden_pair_sound(g: Seq<Cell>, s: Seq<u8>, u: int, a: u8, b: u8, i: int)
    requires
        solution_of(g, s),
        0 <= u < 27,
        0 <= i < 9,
        hidden_pair_core(g, u, a, b),
        pair_match(g, u, i, a, b),
    ensures
        s[unit_idx(u, i)] == a || s[unit_idx(u, i)] == b,
{
    let p = |i2: int| pair_match(g, u, i2, a, b);
    lemma_pair_count_is_idx_count(g, u, a, b, 9);
    lemma_solution_unit_onto(g, s, u, a);
    lemma_solution_unit_onto(g, s, u, b);
    let ia = choose|ia: int| 0 <= ia < 9 && s[unit_idx(u, ia)] == a;
    let ib = choose|ib: int| 0 <= ib < 9 && s[unit_idx(u, ib)] == b;
    lemma_unit_bounds(u, ia);
    lemma_unit_bounds(u, ib);
    assert(cell_has(g[unit_idx(u, ia)], a as u16)) by {
        if g[unit_idx(u, ia)] is Known {
            assert(g[unit_idx(u, ia)] == Cell::Known(a));
            assert(unit_has_known(g, u, a));
        }
    }
    assert(cell_has(g[unit_idx(u, ib)], b as u16)) by {
        if g[unit_idx(u, ib)] is Known {
            assert(g[unit_idx(u, ib)] == Cell::Known(b));
            assert(unit_has_known(g, u, b));
        }
    }
    assert(pair_match(g, u, ia, a, b));
    assert(pair_match(g, u, ib, a, b));
    lemma_unit_inj(u, ia, ib);
    if s[unit_idx(u, i)] != a && s[unit_idx(u, i)] != b {
        assert(i != ia && i != ib && ia != ib);
        lemma_idx_count_three(p, i, ia, ib, 9);
    }
}

/// Soundness of the hidden triple: a cell listing any digit of an applying
/// hidden triple takes one of the three in every valid completion, since
/// the three digits must occupy the three listing cells.
pub proof fn lemma_hidden_triple_sound(
    g: Seq<Cell>,
    s: Seq<u8>,
    u: int,
    a: u8,
    b: u8,
    c: u8,
    i: int,
)
    requires
        solution_of(g, s),
        0 <= u < 27,
        0 <= i < 9,
        hidden_triple_core(g, u, a, b, c),
        triple_match(g, u, i, a, b, c),
    ensures
        s[unit_idx(u, i)] == a || s[unit_idx(u, i)] == b || s[unit_idx(u, i)] == c,
{
    let p = |i2: int| triple_match(g, u, i2, a, b, c);
    lemma_triple_count_is_idx_count(g, u, a, b, c, 9);
    lemma_solution_unit_onto(g, s, u, a);
    lemma_solution_unit_onto(g, s, u, b);
    lemma_solution_unit_onto(g, s, u, c);
    let ia = choose|ia: int| 0 <= ia < 9 && s[unit_idx(u, ia)] == a;
    let ib = choose|ib: int| 0 <= ib < 9 && s[unit_idx(u, ib)] == b;
    let ic = choose|ic: int| 0 <= ic < 9 && s[unit_idx(u, ic)] == c;
    lemma_unit_bounds(u, ia);
    lemma_unit_bounds(u, ib);
    lemma_unit_bounds(u, ic);
    assert(cell_has(g[unit_idx(u, ia)], a as u16)) by {
        if g[unit_idx(u, ia)] is Known {
            assert(g[unit_idx(u, ia)] == Cell::Known(a));
            assert(unit_has_known(g, u, a));
        }
    }
    assert(cell_has(g[unit_idx(u, ib)], b as u16)) by {
        if g[unit_idx(u, ib)] is Known {
            assert(g[unit_idx(u, ib)] == Cell::Known(b));
            assert(unit_has_known(g, u, b));
        }
    }
    assert(cell_has(g[unit_idx(u, ic)], c as u16)) by {
        if g[unit_idx(u, ic)] is Known {
            assert(g[unit_idx(u, ic)] == Cell::Known(c));
            assert(unit_has_known(g, u, c));
        }
    }
    assert(triple_match(g, u, ia, a, b, c));
    assert(triple_match(g, u, ib, a, b, c));
    assert(triple_match(g, u, ic, a, b, c));
    lemma_unit_inj(u, ia, ib);
    lemma_unit_inj(u, ia, ic);
    lemma_unit_inj(u, ib, ic);
    if s[unit_idx(u, i)] != a && s[unit_idx(u, i)] != b && s[unit_idx(u, i)] != c {
        assert(i != ia && i != ib && i != ic);
        lemma_idx_count_four(p, i, ia, ib, ic, 9);
    }
}

/// A position inside box `b`'s row and column bands is one of the box's
/// nine cells.
proof fn lemma_box_member(b: int, rr: int, cc: int)
    requires
        0 <= b < 9,
        0 <= rr < 9,
        0 <= cc < 9,
        rr / 3 == b / 3,
        cc / 3 == b % 3,
    ensures
        exists|j: int|
            0 <= j < 9 && #[trigger] unit_row(18 + b, j) == rr && unit_col(18 + b, j) == cc,
{
    let j = (rr % 3) * 3 + (cc % 3);
    assert(0 <= rr % 3 < 3 && 0 <= cc % 3 < 3) by (nonlinear_arith)
        requires 0 <= rr, 0 <= cc;
    assert(j / 3 == rr % 3 && j % 3 == cc % 3) by (nonlinear_arith)
        requires 0 <= rr % 3 < 3, 0 <= cc % 3 < 3, j == (rr % 3) * 3 + (cc % 3);
    vstd::arithmetic::div_mod::lemma_fundamental_div_mod(rr, 3);
    vstd::arithmetic::div_mod::lemma_fundamental_div_mod(cc, 3);
    assert(unit_row(18 + b, j) == rr);
    assert(unit_col(18 + b, j) == cc);
}

/// Soundness of the pointing rule, row form: when all of a box's spots for
/// a digit fall on one row, no valid completion puts that digit elsewhere
/// in the row, so striking it outside the box is safe.
pub proof fn lemma_pointing_row_sound(g: Seq<Cell>, s: Seq<u8>, b: int, d: u8, r: int, c: int)
    requires
        solution_of(g, s),
        pointing_row_applies(g, b, d, r),
        0 <= c < 9,
        c / 3 != b % 3,
    ensures
        s[r * 9 + c] != d,
{
    lemma_solution_unit_onto(g, s, 18 + b, d);
    let i = choose|i: int| 0 <= i < 9 && #[trigger] s[unit_idx(18 + b, i)] == d;
    lemma_unit_bounds(18 + b, i);
    assert(cell_has(g[unit_idx(18 + b, i)], d as u16)) by {
        if g[unit_idx(18 + b, i)] is Known {
            assert(g[unit_idx(18 + b, i)] == Cell::Known(d));
            assert(unit_has_known(g, 18 + b, d));
        }
    }
    assert(unit_row(18 + b, i) == r);
    let uc = unit_col(18 + b, i);
    assert(uc / 3 == b % 3) by (nonlinear_arith)
        requires uc == (b % 3) * 3 + i % 3, 0 <= i % 3 < 3, 0 <= b % 3;
    if s[r * 9 + c] == d {
        assert(unit_idx(18 + b, i) == unit_idx(r, uc));
        assert(s[unit_idx(r, uc)] != s[unit_idx(r, c)]);
    }
}

/// Soundness of the pointing rule, column form.
pub proof fn lemma_pointing_col_sound(g: Seq<Cell>, s: Seq<u8>, b: int, d: u8, c: int, r: int)
    requires
        solution_of(g, s),
        pointing_col_applies(g, b, d, c),
        0 <= r < 9,
        r / 3 != b / 3,
    ensures
        s[r * 9 + c] != d,
{
    lemma_solution_unit_onto(g, s, 18 + b, d);
    let i = choose|i: int| 0 <= i < 9 && #[trigger] s[unit_idx(18 + b, i)] == d;
    lemma_unit_bounds(18 + b, i);
    assert(cell_has(g[unit_idx(18 + b, i)], d as u16)) by {
        if g[unit_idx(18 + b, i)] is Known {
            assert(g[unit_idx(18 + b, i)] == Cell::Known(d));
            assert(unit_has_known(g, 18 + b, d));
        }
    }
    assert(unit_col(18 + b, i) == c);
    let ur = unit_row(18 + b, i);
    assert(ur / 3 == b / 3) by (nonlinear_arith)
        requires ur == (b / 3) * 3 + i / 3, 0 <= i / 3 < 3, 0 <= b / 3;
    if s[r * 9 + c] == d {
        assert(unit_idx(18 + b, i) == ur * 9 + c);
        assert(unit_idx(9 + c, ur) == ur * 9 + c);
        assert(unit_idx(9 + c, r) == r * 9 + c);
        assert(s[unit_idx(9 + c, ur)] != s[unit_idx(9 + c, r)]);
    }
}

/// Soundness of box-line reduction, row form: when all of a row's spots for
/// a digit fall inside one box, no valid completion puts that digit
/// elsewhere in the box, so striking it off the row is safe.
pub proof fn lemma_blocking_row_sound(g: Seq<Cell>, s: Seq<u8>, r: int, d: u8, b: int, i: int)
    requires
        solution_of(g, s),
        blocking_row_applies(g, r, d, b),
        0 <= i < 9,
        unit_row(18 + b, i) != r,
    ensures
        s[unit_idx(18 + b, i)] != d,
{
    lemma_solution_unit_onto(g, s, r, d);
    let cc = choose|cc: int| 0 <= cc < 9 && #[trigger] s[unit_idx(r, cc)] == d;
    lemma_unit_bounds(r, cc);
    assert(cell_has(g[r * 9 + cc], d as u16)) by {
        if g[r * 9 + cc] is Known {
            assert(g[unit_idx(r, cc)] == Cell::Known(d));
            assert(unit_has_known(g, r, d));
        }
    }
    assert(cc / 3 == b % 3);
    lemma_box_member(b, r, cc);
    let j = choose|j: int|
        0 <= j < 9 && #[trigger] unit_row(18 + b, j) == r && unit_col(18 + b, j) == cc;
    assert(unit_idx(18 + b, j) == r * 9 + cc);
    if s[unit_idx(18 + b, i)] == d {
        assert(i != j);
        assert(s[unit_idx(18 + b, i)] != s[unit_idx(18 + b, j)]);
    }
}

/// Soundness of box-line reduction, column form.
pub proof fn lemma_blocking_col_sound(g: Seq<Cell>, s: Seq<u8>, c: int, d: u8, b: int, i: int)
    requires
        solution_of(g, s),
        blocking_col_applies(g, c, d, b),
        0 <= i < 9,
        unit_col(18 + b, i) != c,
    ensures
        s[unit_idx(18 + b, i)] != d,
{
    lemma_solution_unit_onto(g, s, 9 + c, d);
    let rr = choose|rr: int| 0 <= rr < 9 && #[trigger] s[unit_idx(9 + c, rr)] == d;
    lemma_unit_bounds(9 + c, rr);
    assert(unit_idx(9 + c, rr) == rr * 9 + c);
    assert(cell_has(g[rr * 9 + c], d as u16)) by {
        if g[rr * 9 + c] is Known {
            assert(g[unit_idx(9 + c, rr)] == Cell::Known(d));
            assert(unit_has_known(g, 9 + c, d));
        }
    }
    assert(rr / 3 == b / 3);
    lemma_box_member(b, rr, c);
    let j = choose|j: int|
        0 <= j < 9 && #[trigger] unit_row(18 + b, j) == rr && unit_col(18 + b, j) == c;
    assert(unit_idx(18 + b, j) == rr * 9 + c);
    if s[unit_idx(18 + b, i)] == d {
        assert(i != j);
        assert(s[unit_idx(18 + b, i)] != s[unit_idx(18 + b, j)]);
    }
}

} // verus!

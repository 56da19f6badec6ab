//! The 9x9 grid and its cells.
//!
//! A `Cell` is either a determined digit or a mask of remaining candidate
//! digits. A `Board` owns the 81 cells in row-major order and exposes scoped
//! views: its 27 units (9 rows, 9 columns, 9 boxes) each consist of 9 cells.
//!
//! The central ordering on grids is *narrowing*: a cell may only lose
//! candidates or be promoted to one of its candidates, and a determined cell
//! never changes again. Every deduction rule refines the grid along this
//! order, which is what makes the solve loop monotone and terminating.

use vstd::prelude::*;
use crate::mask::{
    mask_has, mask_wf, mask_sub, mask_card, lemma_mask_ext, lemma_count_sub, lemma_count_one,
    lemma_proper_sub_card, lemma_card_one_unique, mask_full, mask_empty, mask_count, mask_pick,
    mask_test, mask_set,
};

verus! {

/// One square of the grid: a determined digit, or the candidate digits left.
#[derive(Clone, Copy, Debug, PartialEq, Eq, Structural)]
pub enum Cell {
    Known(u8),
    Possible(u16),
}

/// A well-formed cell: a determined digit lies in 1..=9, a candidate mask
/// holds digits 1..=9 only.
pub open spec fn cell_wf(c: Cell) -> bool {
    match c {
        Cell::Known(v) => 1 <= v <= 9,
        Cell::Possible(m) => mask_wf(m),
    }
}

/// Digit `d` is still a candidate of the (undetermined) cell.
pub open spec fn cell_has(c: Cell, d: u16) -> bool {
    match c {
        Cell::Possible(m) => mask_has(m, d),
        Cell::Known(_) => false,
    }
}

/// The digit of a determined cell (0 for an undetermined one).
pub open spec fn cell_val(c: Cell) -> u8 {
    match c {
        Cell::Known(v) => v,
        Cell::Possible(_) => 0,
    }
}

/// The candidate mask of an undetermined cell (empty for a determined one).
pub open spec fn cell_mask(c: Cell) -> u16 {
    match c {
        Cell::Possible(m) => m,
        Cell::Known(_) => 0,
    }
}

/// `c2` is a lawful refinement of `c1`: a determined cell is kept as it is,
/// a promotion takes one of the old candidates, and a candidate set only
/// ever shrinks.
pub open spec fn cell_narrows(c1: Cell, c2: Cell) -> bool {
    &&& (c1 is Known ==> c2 == c1)
    &&& match c2 {
        Cell::Known(v) => c1 == c2 || cell_has(c1, v as u16),
        Cell::Possible(m2) => match c1 {
            Cell::Possible(m1) => mask_sub(m2, m1),
            Cell::Known(_) => false,
        },
    }
}

pub proof fn lemma_cell_narrows_refl(c: Cell)
    ensures
        cell_narrows(c, c),
{
}

pub proof fn lemma_cell_narrows_trans(c1: Cell, c2: Cell, c3: Cell)
    requires
        cell_narrows(c1, c2),
        cell_narrows(c2, c3),
    ensures
        cell_narrows(c1, c3),
{
}

/// Narrowing in both directions means no change at all.
pub proof fn lemma_cell_narrows_antisym(c1: Cell, c2: Cell)
    requires
        cell_narrows(c1, c2),
        cell_narrows(c2, c1),
    ensures
        c1 == c2,
{
    match (c1, c2) {
        (Cell::Possible(m1), Cell::Possible(m2)) => {
            assert forall|d: u16| mask_has(m1, d) == mask_has(m2, d) by {}
            lemma_mask_ext(m1, m2);
        },
        _ => {},
    }
}

/// The whole grid is well-formed.
pub open spec fn grid_wf(g: Seq<Cell>) -> bool {
    g.len() == 81 && forall|k: int| 0 <= k < 81 ==> cell_wf(#[trigger] g[k])
}

/// `g2` refines `g1` cell by cell.
pub open spec fn grid_narrows(g1: Seq<Cell>, g2: Seq<Cell>) -> bool {
    g1.len() == 81 && g2.len() == 81 && forall|k: int|
        0 <= k < 81 ==> cell_narrows(#[trigger] g1[k], #[trigger] g2[k])
}

pub proof fn lemma_grid_narrows_refl(g: Seq<Cell>)
    requires
        g.len() == 81,
    ensures
        grid_narrows(g, g),
{
    assert forall|k: int| 0 <= k < 81 implies cell_narrows(g[k], g[k]) by {
        lemma_cell_narrows_refl(g[k]);
    }
}

/// Narrowing composes: what a sequence of rule applications does to a grid
/// is itself a narrowing, so candidate sets are non-increasing across a
/// whole run and a determined cell never changes again.
pub proof fn lemma_grid_narrows_trans(g1: Seq<Cell>, g2: Seq<Cell>, g3: Seq<Cell>)
    requires
        grid_narrows(g1, g2),
        grid_narrows(g2, g3),
    ensures
        grid_narrows(g1, g3),
{
    assert forall|k: int| 0 <= k < 81 implies cell_narrows(g1[k], g3[k]) by {
        lemma_cell_narrows_trans(g1[k], g2[k], g3[k]);
    }
}

/// A grid cannot narrow back to where it started through a changed state.
pub proof fn lemma_grid_narrows_sandwich(g0: Seq<Cell>, g1: Seq<Cell>, g2: Seq<Cell>)
    requires
        grid_narrows(g0, g1),
        grid_narrows(g1, g2),
        g2 == g0,
    ensures
        g1 == g0,
{
    assert forall|k: int| 0 <= k < 81 implies g0[k] == g1[k] by {
        lemma_cell_narrows_antisym(g0[k], g1[k]);
    }
    assert(g0 =~= g1);
}

/// Once a pass has changed the grid, no further narrowing undoes that.
pub proof fn lemma_grid_changed_stays(g0: Seq<Cell>, g1: Seq<Cell>, g2: Seq<Cell>)
    requires
        grid_narrows(g0, g1),
        grid_narrows(g1, g2),
        g1 != g0,
    ensures
        g2 != g0,
{
    if g2 == g0 {
        lemma_grid_narrows_sandwich(g0, g1, g2);
    }
}

/// Updating one cell to a refinement refines the grid.
pub proof fn lemma_grid_update_narrows(g: Seq<Cell>, k: int, c: Cell)
    requires
        g.len() == 81,
        0 <= k < 81,
        cell_narrows(g[k], c),
    ensures
        grid_narrows(g, g.update(k, c)),
{
    let g2 = g.update(k, c);
    assert forall|k2: int| 0 <= k2 < 81 implies cell_narrows(g[k2], g2[k2]) by {
        if k2 != k {
            lemma_cell_narrows_refl(g[k2]);
        }
    }
}

// ---------------------------------------------------------------------------
// Unit geometry: units 0..9 are rows, 9..18 are columns, 18..27 are boxes.
// Within a unit, cells are listed in canonical order: a row by column, a
// column by row, a box row-major.
// ---------------------------------------------------------------------------

/// Row coordinate of the `i`-th cell of unit `u`.
pub open spec fn unit_row(u: int, i: int) -> int {
    if u < 9 {
        u
    } else if u < 18 {
        i
    } else {
        ((u - 18) / 3) * 3 + i / 3
    }
}

/// Column coordinate of the `i`-th cell of unit `u`.
pub open spec fn unit_col(u: int, i: int) -> int {
    if u < 9 {
        i
    } else if u < 18 {
        u - 9
    } else {
        ((u - 18) % 3) * 3 + i % 3
    }
}

/// Row-major index of the `i`-th cell of unit `u`.
pub open spec fn unit_idx(u: int, i: int) -> int {
    unit_row(u, i) * 9 + unit_col(u, i)
}

pub proof fn lemma_unit_bounds(u: int, i: int)
    requires
        0 <= u < 27,
        0 <= i < 9,
    ensures
        0 <= unit_row(u, i) < 9,
        0 <= unit_col(u, i) < 9,
        0 <= unit_idx(u, i) < 81,
{
    if u >= 18 {
        let b = u - 18;
        assert(0 <= b / 3 <= 2) by (nonlinear_arith)
            requires 0 <= b < 9;
        assert(0 <= b % 3 <= 2) by (nonlinear_arith)
            requires 0 <= b < 9;
        assert(0 <= i / 3 <= 2) by (nonlinear_arith)
            requires 0 <= i < 9;
        assert(0 <= i % 3 <= 2) by (nonlinear_arith)
            requires 0 <= i < 9;
    }
}

/// Distinct positions of one unit sit at distinct grid indices.
pub proof fn lemma_unit_inj(u: int, i: int, j: int)
    requires
        0 <= u < 27,
        0 <= i < 9,
        0 <= j < 9,
        i != j,
    ensures
        unit_idx(u, i) != unit_idx(u, j),
{
    lemma_unit_bounds(u, i);
    lemma_unit_bounds(u, j);
    if u >= 18 {
        vstd::arithmetic::div_mod::lemma_fundamental_div_mod(i, 3);
        vstd::arithmetic::div_mod::lemma_fundamental_div_mod(j, 3);
    }
}

/// The `i`-th cell of unit `u`, as explicit coordinates.
pub fn unit_cell_pos(u: usize, i: usize) -> (p: (usize, usize))
    requires
        u < 27,
        i < 9,
    ensures
        p.0 == unit_row(u as int, i as int),
        p.1 == unit_col(u as int, i as int),
        p.0 < 9,
        p.1 < 9,
{
    proof {
        lemma_unit_bounds(u as int, i as int);
    }
    if u < 9 {
        (u, i)
    } else if u < 18 {
        (i, u - 9)
    } else {
        let b = u - 18;
        ((b / 3) * 3 + i / 3, (b % 3) * 3 + i % 3)
    }
}

// ---------------------------------------------------------------------------
// Cell operations
// ---------------------------------------------------------------------------

impl Cell {
    /// If this cell has exactly one candidate left, determine it to that
    /// digit; otherwise leave the cell alone.
    pub fn check(&mut self)
        ensures
            cell_narrows(*old(self), *final(self)),
            cell_wf(*old(self)) ==> cell_wf(*final(self)),
            (*old(self)) is Known ==> *final(self) == *old(self),
            (*old(self)) is Possible && mask_card(cell_mask(*old(self))) != 1 ==> *final(self)
                == *old(self),
            (*old(self)) is Possible && mask_card(cell_mask(*old(self))) == 1
                ==> (*final(self)) is Known
                    && mask_has(cell_mask(*old(self)), cell_val(*final(self)) as u16)
                    && 1 <= cell_val(*final(self)) <= 9,
            (*old(self)) is Possible && mask_card(cell_mask(*old(self))) == 1 && mask_wf(
                cell_mask(*old(self)),
            ) ==> forall|w: u16|
                mask_has(cell_mask(*old(self)), w) ==> w == cell_val(*final(self)) as u16,
    {
        match *self {
            Cell::Known(_) => {},
            Cell::Possible(m) => {
                if mask_count(m) == 1 {
                    let v = mask_pick(m);
                    *self = Cell::Known(v);
                    proof {
                        if mask_wf(m) {
                            assert forall|w: u16| mask_has(m, w) implies w == v as u16 by {
                                lemma_card_one_unique(m, v as u16, w);
                            }
                        }
                    }
                }
            },
        }
    }

    /// Whether the cell is determined.
    pub fn is_known(&self) -> (r: bool)
        ensures
            r == (self is Known),
    {
        match self {
            Cell::Known(_) => true,
            Cell::Possible(_) => false,
        }
    }

    /// The digit of a determined cell, absent for an undetermined one.
    pub fn value(&self) -> (r: Option<u8>)
        ensures
            self is Known ==> r == Some(cell_val(*self)),
            self is Possible ==> r is None,
    {
        match self {
            Cell::Known(v) => Some(*v),
            Cell::Possible(_) => None,
        }
    }
}

impl Default for Cell {
    /// A fresh cell with all nine digits still possible.
    fn default() -> (r: Self)
        ensures
            r is Possible,
            cell_wf(r),
            forall|d: u16| cell_has(r, d) <==> 1 <= d <= 9,
    {
        Cell::Possible(mask_full())
    }
}

// ---------------------------------------------------------------------------
// Board
// ---------------------------------------------------------------------------

/// The 9x9 grid, row-major.
pub struct Board {
    cells: Vec<Cell>,
}

impl View for Board {
    type V = Seq<Cell>;

    closed spec fn view(&self) -> Seq<Cell> {
        self.cells@
    }
}

impl Default for Board {
    /// A board with every cell still open to all nine digits.
    fn default() -> (r: Self)
        ensures
            r.wf(),
            forall|k: int|
                0 <= k < 81 ==> (#[trigger] r@[k]) is Possible && forall|d: u16|
                    cell_has(r@[k], d) <==> 1 <= d <= 9,
    {
        let mut cells: Vec<Cell> = Vec::new();
        let mut k: usize = 0;
        while k < 81
            invariant
                cells@.len() == k,
                k <= 81,
                forall|k2: int|
                    0 <= k2 < k ==> (#[trigger] cells@[k2]) is Possible && cell_wf(cells@[k2])
                        && forall|d: u16| cell_has(cells@[k2], d) <==> 1 <= d <= 9,
            decreases 81 - k,
        {
            cells.push(Cell::default());
            k = k + 1;
        }
        Board { cells }
    }
}

impl Board {
    /// The grid is well-formed: 81 well-formed cells.
    pub open spec fn wf(&self) -> bool {
        grid_wf(self@)
    }

    /// The cell at the given position.
    pub fn get(&self, row: usize, col: usize) -> (c: Cell)
        requires
            row < 9,
            col < 9,
            self@.len() == 81,
        ensures
            c == self@[row as int * 9 + col as int],
    {
        self.cells[row * 9 + col]
    }

    /// Replace the cell at the given position.
    pub fn set_cell(&mut self, row: usize, col: usize, c: Cell)
        requires
            row < 9,
            col < 9,
            old(self)@.len() == 81,
        ensures
            final(self)@ == old(self)@.update(row as int * 9 + col as int, c),
    {
        let i = row * 9 + col;
        self.cells.set(i, c);
    }

    /// The nine cells of a unit, in canonical order.
    pub fn unit_cells(&self, u: usize) -> (r: Vec<Cell>)
        requires
            u < 27,
            self@.len() == 81,
        ensures
            r@.len() == 9,
            forall|i: int| 0 <= i < 9 ==> r@[i] == self@[unit_idx(u as int, i)],
    {
        let mut r: Vec<Cell> = Vec::new();
        let mut i: usize = 0;
        while i < 9
            invariant
                i <= 9,
                u < 27,
                self@.len() == 81,
                r@.len() == i,
                forall|i2: int| 0 <= i2 < i ==> r@[i2] == self@[unit_idx(u as int, i2)],
            decreases 9 - i,
        {
            let (row, col) = unit_cell_pos(u, i);
            proof {
                lemma_unit_bounds(u as int, i as int);
            }
            r.push(self.get(row, col));
            i = i + 1;
        }
        r
    }

    /// The nine cells of the requested row, by column.
    pub fn row(&self, index: usize) -> (r: Vec<Cell>)
        requires
            index < 9,
            self@.len() == 81,
        ensures
            r@.len() == 9,
            forall|i: int| 0 <= i < 9 ==> r@[i] == self@[index as int * 9 + i],
    {
        self.unit_cells(index)
    }

    /// The nine cells of the requested column, by row.
    pub fn col(&self, index: usize) -> (r: Vec<Cell>)
        requires
            index < 9,
            self@.len() == 81,
        ensures
            r@.len() == 9,
            forall|i: int| 0 <= i < 9 ==> r@[i] == self@[i * 9 + index as int],
    {
        self.unit_cells(9 + index)
    }

    /// The nine cells of the requested box, row-major; `row` and `col` are
    /// box coordinates in 0..3.
    pub fn group(&self, row: usize, col: usize) -> (r: Vec<Cell>)
        requires
            row < 3,
            col < 3,
            self@.len() == 81,
        ensures
            r@.len() == 9,
            forall|i: int|
                0 <= i < 9 ==> r@[i] == self@[unit_idx(18 + row as int * 3 + col as int, i)],
    {
        self.unit_cells(18 + row * 3 + col)
    }

    /// The nine cells of a unit, each with its absolute (row, col) position.
    pub fn enum_unit_cells(&self, u: usize) -> (r: Vec<((usize, usize), Cell)>)
        requires
            u < 27,
            self@.len() == 81,
        ensures
            r@.len() == 9,
            forall|i: int|
                0 <= i < 9 ==> (#[trigger] r@[i]).0.0 == unit_row(u as int, i) && r@[i].0.1
                    == unit_col(u as int, i) && r@[i].1 == self@[unit_idx(u as int, i)],
    {
        let mut r: Vec<((usize, usize), Cell)> = Vec::new();
        let mut i: usize = 0;
        while i < 9
            invariant
                i <= 9,
                u < 27,
                self@.len() == 81,
                r@.len() == i,
                forall|i2: int|
                    0 <= i2 < i ==> (#[trigger] r@[i2]).0.0 == unit_row(u as int, i2) && r@[i2].0.1
                        == unit_col(u as int, i2) && r@[i2].1 == self@[unit_idx(u as int, i2)],
            decreases 9 - i,
        {
            let (row, col) = unit_cell_pos(u, i);
            proof {
                lemma_unit_bounds(u as int, i as int);
            }
            r.push(((row, col), self.get(row, col)));
            i = i + 1;
        }
        r
    }

    /// The requested row, each cell with its absolute position.
    pub fn enum_row(&self, row_index: usize) -> (r: Vec<((usize, usize), Cell)>)
        requires
            row_index < 9,
            self@.len() == 81,
        ensures
            r@.len() == 9,
            forall|i: int|
                0 <= i < 9 ==> (#[trigger] r@[i]).0.0 == row_index && r@[i].0.1 == i && r@[i].1
                    == self@[row_index as int * 9 + i],
    {
        self.enum_unit_cells(row_index)
    }

    /// The requested column, each cell with its absolute position.
    pub fn enum_col(&self, col_index: usize) -> (r: Vec<((usize, usize), Cell)>)
        requires
            col_index < 9,
            self@.len() == 81,
        ensures
            r@.len() == 9,
            forall|i: int|
                0 <= i < 9 ==> (#[trigger] r@[i]).0.0 == i && r@[i].0.1 == col_index && r@[i].1
                    == self@[i * 9 + col_index as int],
    {
        self.enum_unit_cells(9 + col_index)
    }

    /// The requested box, each cell with its absolute position.
    pub fn enum_group(&self, row: usize, col: usize) -> (r: Vec<((usize, usize), Cell)>)
        requires
            row < 3,
            col < 3,
            self@.len() == 81,
        ensures
            r@.len() == 9,
            forall|i: int|
                0 <= i < 9 ==> (#[trigger] r@[i]).0.0 == unit_row(18 + row as int * 3 + col as int, i)
                    && r@[i].0.1 == unit_col(18 + row as int * 3 + col as int, i) && r@[i].1
                    == self@[unit_idx(18 + row as int * 3 + col as int, i)],
    {
        self.enum_unit_cells(18 + row * 3 + col)
    }

    /// Number of cells not yet determined.
    pub fn num_unsolved(&self) -> (n: usize)
        requires
            self@.len() == 81,
        ensures
            n == grid_unknown(self@),
            n <= 81,
    {
        let mut n: usize = 0;
        let mut k: usize = 0;
        while k < 81
            invariant
                k <= 81,
                n <= k,
                self@.len() == 81,
                n == grid_unknown_from(self@, k as int),
            decreases 81 - k,
        {
            let c = self.cells[k];
            if !c.is_known() {
                n = n + 1;
            }
            k = k + 1;
        }
        n
    }

    /// Total number of candidates left over all undetermined cells.
    pub fn num_possible_values(&self) -> (n: usize)
        requires
            self@.len() == 81,
        ensures
            n == grid_cands(self@),
            n <= 729,
    {
        let mut n: usize = 0;
        let mut k: usize = 0;
        while k < 81
            invariant
                k <= 81,
                n <= 9 * k,
                self@.len() == 81,
                n == grid_cands_from(self@, k as int),
            decreases 81 - k,
        {
            let c = self.cells[k];
            match c {
                Cell::Known(_) => {},
                Cell::Possible(m) => {
                    n = n + mask_count(m) as usize;
                },
            }
            k = k + 1;
        }
        n
    }

    /// Whether one unit is free of repeated determined digits.
    fn unit_consistent_check(&self, u: usize) -> (r: bool)
        requires
            u < 27,
            self.wf(),
        ensures
            r == unit_consistent(self@, u as int),
    {
        let mut seen: u16 = mask_empty();
        let mut i: usize = 0;
        while i < 9
            invariant
                i <= 9,
                u < 27,
                self.wf(),
                forall|d: u16|
                    #[trigger] mask_has(seen, d) <==> (1 <= d <= 9 && exists|i2: int|
                        0 <= i2 < i && self@[unit_idx(u as int, i2)] == Cell::Known(d as u8)),
                forall|i1: int, i2: int|
                    0 <= i1 < i && 0 <= i2 < i && i1 != i2 && (#[trigger] self@[unit_idx(
                        u as int,
                        i1,
                    )]) is Known ==> #[trigger] self@[unit_idx(u as int, i2)] != self@[unit_idx(
                        u as int,
                        i1,
                    )],
            decreases 9 - i,
        {
            let (row, col) = unit_cell_pos(u, i);
            proof {
                lemma_unit_bounds(u as int, i as int);
            }
            let c = self.get(row, col);
            match c {
                Cell::Known(v) => {
                    assert(cell_wf(c));
                    if mask_test(seen, v) {
                        proof {
                            let i2 = choose|i2: int|
                                0 <= i2 < i && self@[unit_idx(u as int, i2)] == Cell::Known(v);
                            assert(!unit_consistent(self@, u as int));
                        }
                        return false;
                    }
                    seen = mask_set(seen, v);
                },
                Cell::Possible(_) => {},
            }
            i = i + 1;
        }
        true
    }

    /// Whether every row, column and box is free of repeated determined
    /// digits. A `false` result signals a contradiction: the grid cannot be
    /// completed from its current state.
    pub fn is_correct(&self) -> (r: bool)
        requires
            self.wf(),
        ensures
            r == grid_consistent(self@),
            r && grid_all_known(self@) ==> forall|u: int, d: u8|
                0 <= u < 27 && 1 <= d <= 9 ==> #[trigger] unit_contains(self@, u, d),
    {
        let mut u: usize = 0;
        while u < 27
            invariant
                u <= 27,
                self.wf(),
                forall|u2: int| 0 <= u2 < u ==> unit_consistent(self@, u2),
            decreases 27 - u,
        {
            if !self.unit_consistent_check(u) {
                return false;
            }
            u = u + 1;
        }
        proof {
            if grid_all_known(self@) {
                lemma_solved_grid_complete(self@);
            }
        }
        true
    }

    /// Place the given clues into one row: digit 0 leaves the cell alone,
    /// digits 1..=9 determine it.
    pub fn set_clues(&mut self, row_index: usize, digits: &Vec<u8>)
        requires
            old(self).wf(),
            row_index < 9,
            digits@.len() == 9,
            forall|j: int| 0 <= j < 9 ==> #[trigger] digits@[j] <= 9,
        ensures
            final(self).wf(),
            forall|j: int|
                0 <= j < 9 && digits@[j] != 0 ==> final(self)@[row_index as int * 9 + j]
                    == Cell::Known(digits@[j]),
            forall|j: int|
                0 <= j < 9 && digits@[j] == 0 ==> final(self)@[row_index as int * 9 + j] == old(
                    self,
                )@[row_index as int * 9 + j],
            forall|k: int|
                0 <= k < 81 && !(row_index as int * 9 <= k < row_index as int * 9 + 9)
                    ==> final(self)@[k] == old(self)@[k],
    {
        let mut j: usize = 0;
        while j < 9
            invariant
                j <= 9,
                row_index < 9,
                digits@.len() == 9,
                forall|j2: int| 0 <= j2 < 9 ==> #[trigger] digits@[j2] <= 9,
                self.wf(),
                forall|j2: int|
                    0 <= j2 < j && digits@[j2] != 0 ==> self@[row_index as int * 9 + j2]
                        == Cell::Known(digits@[j2]),
                forall|j2: int|
                    j <= j2 < 9 ==> #[trigger] self@[row_index as int * 9 + j2] == old(
                        self,
                    )@[row_index as int * 9 + j2],
                forall|j2: int|
                    0 <= j2 < j && digits@[j2] == 0 ==> self@[row_index as int * 9 + j2] == old(
                        self,
                    )@[row_index as int * 9 + j2],
                forall|k: int|
                    0 <= k < 81 && !(row_index as int * 9 <= k < row_index as int * 9 + 9)
                        ==> self@[k] == old(self)@[k],
            decreases 9 - j,
        {
            let d = digits[j];
            if d != 0 {
                self.set_cell(row_index, j, Cell::Known(d));
            }
            j = j + 1;
        }
    }

    /// Read one row of clues from ASCII text: bytes `'0'..='9'`, with `'0'`
    /// for a blank. Returns false, leaving the board alone, unless the line
    /// is exactly nine such bytes.
    pub fn parse_line(&mut self, input: &Vec<u8>, row_index: usize) -> (ok: bool)
        requires
            old(self).wf(),
            row_index < 9,
        ensures
            final(self).wf(),
            ok <==> (input@.len() == 9 && forall|j: int| 0 <= j < 9 ==> 48 <= #[trigger] input@[j] <= 57),
            !ok ==> final(self)@ == old(self)@,
            ok ==> forall|j: int|
                0 <= j < 9 && input@[j] != 48 ==> final(self)@[row_index as int * 9 + j]
                    == Cell::Known((input@[j] - 48) as u8),
            ok ==> forall|j: int|
                0 <= j < 9 && input@[j] == 48 ==> final(self)@[row_index as int * 9 + j] == old(
                    self,
                )@[row_index as int * 9 + j],
            ok ==> forall|k: int|
                0 <= k < 81 && !(row_index as int * 9 <= k < row_index as int * 9 + 9)
                    ==> final(self)@[k] == old(self)@[k],
    {
        if input.len() != 9 {
            return false;
        }
        let mut j: usize = 0;
        let mut digits: Vec<u8> = Vec::new();
        while j < 9
            invariant
                j <= 9,
                row_index < 9,
                self.wf(),
                self@ == old(self)@,
                input@.len() == 9,
                digits@.len() == j,
                forall|j2: int| 0 <= j2 < j ==> 48 <= #[trigger] input@[j2] <= 57,
                forall|j2: int| 0 <= j2 < j ==> #[trigger] digits@[j2] == input@[j2] - 48,
                forall|j2: int| 0 <= j2 < j ==> #[trigger] digits@[j2] <= 9,
            decreases 9 - j,
        {
            let b = input[j];
            if b < 48 || b > 57 {
                return false;
            }
            digits.push(b - 48);
            j = j + 1;
        }
        self.set_clues(row_index, &digits);
        proof {
            assert forall|j2: int| 0 <= j2 < 9 && input@[j2] != 48 implies self@[row_index as int
                * 9 + j2] == Cell::Known((input@[j2] - 48) as u8) by {
                assert(digits@[j2] == input@[j2] - 48);
                assert(digits@[j2] != 0);
            }
            assert forall|j2: int| 0 <= j2 < 9 && input@[j2] == 48 implies self@[row_index as int
                * 9 + j2] == old(self)@[row_index as int * 9 + j2] by {
                assert(digits@[j2] == 0);
            }
        }
        true
    }
}

// ---------------------------------------------------------------------------
// Grid-level measures and predicates
// ---------------------------------------------------------------------------

/// Number of undetermined cells among the first `n`.
pub open spec fn grid_unknown_from(g: Seq<Cell>, n: int) -> nat
    decreases n,
{
    if n <= 0 {
        0
    } else {
        grid_unknown_from(g, n - 1) + (if g[n - 1] is Known {
            0nat
        } else {
            1nat
        })
    }
}

/// Number of undetermined cells.
pub open spec fn grid_unknown(g: Seq<Cell>) -> nat {
    grid_unknown_from(g, 81)
}

/// Every cell is determined.
pub open spec fn grid_all_known(g: Seq<Cell>) -> bool {
    forall|k: int| 0 <= k < 81 ==> (#[trigger] g[k]) is Known
}

/// Zero undetermined cells means every cell is determined.
pub proof fn lemma_unknown_zero(g: Seq<Cell>, n: int)
    ensures
        (grid_unknown_from(g, n) == 0) <==> (forall|k: int| 0 <= k < n ==> (#[trigger] g[k]) is Known),
    decreases n,
{
    if n > 0 {
        lemma_unknown_zero(g, n - 1);
    }
}

/// Total number of candidates among the first `n` cells.
pub open spec fn grid_cands_from(g: Seq<Cell>, n: int) -> nat
    decreases n,
{
    if n <= 0 {
        0
    } else {
        grid_cands_from(g, n - 1) + cell_cands(g[n - 1])
    }
}

/// Candidates of one cell (none for a determined cell).
pub open spec fn cell_cands(c: Cell) -> nat {
    match c {
        Cell::Known(_) => 0,
        Cell::Possible(m) => mask_card(m),
    }
}

/// Total number of candidates.
pub open spec fn grid_cands(g: Seq<Cell>) -> nat {
    grid_cands_from(g, 81)
}

/// Progress measure of one cell: strictly drops on every lawful change.
pub open spec fn cell_measure(c: Cell) -> nat {
    match c {
        Cell::Known(_) => 0,
        Cell::Possible(m) => mask_card(m) + 1,
    }
}

/// Progress measure of the first `n` cells.
pub open spec fn grid_measure_from(g: Seq<Cell>, n: int) -> nat
    decreases n,
{
    if n <= 0 {
        0
    } else {
        grid_measure_from(g, n - 1) + cell_measure(g[n - 1])
    }
}

/// Progress measure of the grid: every rule application that changes the
/// grid strictly decreases it, which bounds the solve loop.
pub open spec fn grid_measure(g: Seq<Cell>) -> nat {
    grid_measure_from(g, 81)
}

proof fn lemma_cell_measure_narrows(c1: Cell, c2: Cell)
    requires
        cell_narrows(c1, c2),
        cell_wf(c1),
        cell_wf(c2),
    ensures
        cell_measure(c2) <= cell_measure(c1),
        c1 != c2 ==> cell_measure(c2) < cell_measure(c1),
{
    match (c1, c2) {
        (Cell::Possible(m1), Cell::Possible(m2)) => {
            lemma_count_sub(m2, m1, 1);
            if c1 != c2 {
                lemma_proper_sub_card(m2, m1);
            }
        },
        (Cell::Possible(m1), Cell::Known(v)) => {
            lemma_count_one(m1, v as u16, 1);
        },
        _ => {},
    }
}

proof fn lemma_grid_measure_le_from(g1: Seq<Cell>, g2: Seq<Cell>, n: int)
    requires
        grid_wf(g1),
        grid_wf(g2),
        grid_narrows(g1, g2),
        n <= 81,
    ensures
        grid_measure_from(g2, n) <= grid_measure_from(g1, n),
    decreases n,
{
    if n > 0 {
        lemma_grid_measure_le_from(g1, g2, n - 1);
        lemma_cell_measure_narrows(g1[n - 1], g2[n - 1]);
    }
}

proof fn lemma_grid_measure_lt_from(g1: Seq<Cell>, g2: Seq<Cell>, k: int, n: int)
    requires
        grid_wf(g1),
        grid_wf(g2),
        grid_narrows(g1, g2),
        0 <= k < n <= 81,
        g1[k] != g2[k],
    ensures
        grid_measure_from(g2, n) < grid_measure_from(g1, n),
    decreases n,
{
    if k == n - 1 {
        lemma_grid_measure_le_from(g1, g2, n - 1);
        lemma_cell_measure_narrows(g1[n - 1], g2[n - 1]);
    } else {
        lemma_grid_measure_lt_from(g1, g2, k, n - 1);
        lemma_cell_measure_narrows(g1[n - 1], g2[n - 1]);
    }
}

/// A changed, lawfully narrowed grid has strictly smaller measure.
pub proof fn lemma_grid_measure_lt(g1: Seq<Cell>, g2: Seq<Cell>)
    requires
        grid_wf(g1),
        grid_wf(g2),
        grid_narrows(g1, g2),
        g1 != g2,
    ensures
        grid_measure(g2) < grid_measure(g1),
{
    if forall|k: int| 0 <= k < 81 ==> g1[k] == #[trigger] g2[k] {
        assert(g1 =~= g2);
    }
    let k = choose|k: int| 0 <= k < 81 && g1[k] != #[trigger] g2[k];
    lemma_grid_measure_lt_from(g1, g2, k, 81);
}

/// No digit appears twice among the determined cells of unit `u`.
pub open spec fn unit_consistent(g: Seq<Cell>, u: int) -> bool {
    forall|i: int, j: int|
        0 <= i < 9 && 0 <= j < 9 && i != j && (#[trigger] g[unit_idx(u, i)]) is Known
            ==> #[trigger] g[unit_idx(u, j)] != g[unit_idx(u, i)]
}

/// No unit holds a repeated determined digit.
pub open spec fn grid_consistent(g: Seq<Cell>) -> bool {
    forall|u: int| 0 <= u < 27 ==> unit_consistent(g, u)
}

/// At a fully determined grid every lawful narrowing is trivial: since each
/// rule only narrows and reports a change exactly when the grid changed, one
/// more full pass over a solved grid reports no change.
pub proof fn lemma_narrowing_fixed_when_all_known(g1: Seq<Cell>, g2: Seq<Cell>)
    requires
        grid_narrows(g1, g2),
        grid_all_known(g1),
    ensures
        g2 == g1,
{
    assert forall|k: int| 0 <= k < 81 implies g1[k] == g2[k] by {
        assert(g1[k] is Known);
    }
    assert(g1 =~= g2);
}

/// Unit `u` determines digit `d` in some cell.
pub open spec fn unit_contains(g: Seq<Cell>, u: int, d: u8) -> bool {
    exists|i: int| 0 <= i < 9 && #[trigger] g[unit_idx(u, i)] == Cell::Known(d)
}

/// Completion, for one unit and digit: in a consistent, fully determined
/// grid the unit contains the digit somewhere — and by consistency in no
/// more than one cell, hence exactly once.
pub proof fn lemma_solved_unit_complete(g: Seq<Cell>, u: int, d: u8)
    requires
        grid_wf(g),
        grid_all_known(g),
        grid_consistent(g),
        0 <= u < 27,
        1 <= d <= 9,
    ensures
        exists|i: int| 0 <= i < 9 && g[unit_idx(u, i)] == Cell::Known(d),
{
    broadcast use vstd::seq_lib::seq_to_set_is_finite;

    let vals = Seq::new(9, |i: int| cell_val(g[unit_idx(u, i)]));
    assert(vals.no_duplicates()) by {
        assert forall|i: int, j: int|
            0 <= i < 9 && 0 <= j < 9 && i != j implies vals[i] != vals[j] by {
            lemma_unit_bounds(u, i);
            lemma_unit_bounds(u, j);
            assert(unit_consistent(g, u));
            assert(g[unit_idx(u, i)] is Known);
            assert(g[unit_idx(u, j)] != g[unit_idx(u, i)]);
        }
    }
    let digits = Seq::new(9, |i: int| (i + 1) as u8);
    assert(digits.no_duplicates());
    vals.unique_seq_to_set();
    digits.unique_seq_to_set();
    assert(vals.to_set().subset_of(digits.to_set())) by {
        assert forall|v: u8| vals.to_set().contains(v) implies digits.to_set().contains(v) by {
            let i = choose|i: int| 0 <= i < vals.len() && vals[i] == v;
            lemma_unit_bounds(u, i);
            assert(cell_wf(g[unit_idx(u, i)]));
            assert(g[unit_idx(u, i)] is Known);
            assert(1 <= v <= 9);
            assert(digits[v - 1] == v);
            assert(digits.contains(v));
        }
    }
    vstd::set_lib::lemma_subset_equality(vals.to_set(), digits.to_set());
    assert(digits[d - 1] == d);
    assert(digits.contains(d));
    assert(vals.to_set().contains(d));
    let i = choose|i: int| 0 <= i < vals.len() && vals[i] == d;
    lemma_unit_bounds(u, i);
    assert(g[unit_idx(u, i)] is Known && cell_val(g[unit_idx(u, i)]) == d);
}

/// Completion: a consistent, fully determined grid contains every digit
/// 1..=9 in every one of the 27 units — exactly once, since consistency
/// forbids a repeat.
pub proof fn lemma_solved_grid_complete(g: Seq<Cell>)
    requires
        grid_wf(g),
        grid_all_known(g),
        grid_consistent(g),
    ensures
        forall|u: int, d: u8| 0 <= u < 27 && 1 <= d <= 9 ==> #[trigger] unit_contains(g, u, d),
{
    assert forall|u: int, d: u8| 0 <= u < 27 && 1 <= d <= 9 implies #[trigger] unit_contains(
        g,
        u,
        d,
    ) by {
        lemma_solved_unit_complete(g, u, d);
    }
}

/// `s` is a full valid completion compatible with grid `g`: every cell gets
/// a digit, no unit repeats one, determined cells keep their digit, and an
/// undetermined cell gets one of its remaining candidates.
pub open spec fn solution_of(g: Seq<Cell>, s: Seq<u8>) -> bool {
    &&& s.len() == 81
    &&& forall|k: int| 0 <= k < 81 ==> 1 <= #[trigger] s[k] <= 9
    &&& forall|u: int, i: int, j: int|
        0 <= u < 27 && 0 <= i < 9 && 0 <= j < 9 && i != j ==> #[trigger] s[unit_idx(u, i)]
            != #[trigger] s[unit_idx(u, j)]
    &&& forall|k: int| 0 <= k < 81 && (#[trigger] g[k]) is Known ==> s[k] == cell_val(g[k])
    &&& forall|k: int| 0 <= k < 81 && (#[trigger] g[k]) is Possible ==> cell_has(g[k], s[k] as u16)
}

/// A valid completion places every digit in every unit: nine distinct
/// values over nine cells, each in 1..=9, leave no digit out.
pub proof fn lemma_solution_unit_onto(g: Seq<Cell>, s: Seq<u8>, u: int, d: u8)
    requires
        solution_of(g, s),
        0 <= u < 27,
        1 <= d <= 9,
    ensures
        exists|i: int| 0 <= i < 9 && s[unit_idx(u, i)] == d,
{
    broadcast use vstd::seq_lib::seq_to_set_is_finite;

    let vals = Seq::new(9, |i: int| s[unit_idx(u, i)]);
    assert(vals.no_duplicates()) by {
        assert forall|i: int, j: int|
            0 <= i < 9 && 0 <= j < 9 && i != j implies vals[i] != vals[j] by {
            lemma_unit_bounds(u, i);
            lemma_unit_bounds(u, j);
            assert(s[unit_idx(u, i)] != s[unit_idx(u, j)]);
        }
    }
    let digits = Seq::new(9, |i: int| (i + 1) as u8);
    assert(digits.no_duplicates());
    vals.unique_seq_to_set();
    digits.unique_seq_to_set();
    assert(vals.to_set().subset_of(digits.to_set())) by {
        assert forall|v: u8| vals.to_set().contains(v) implies digits.to_set().contains(v) by {
            let i = choose|i: int| 0 <= i < vals.len() && vals[i] == v;
            lemma_unit_bounds(u, i);
            assert(1 <= s[unit_idx(u, i)] <= 9);
            assert(digits[v - 1] == v);
            assert(digits.contains(v));
        }
    }
    vstd::set_lib::lemma_subset_equality(vals.to_set(), digits.to_set());
    assert(digits[d - 1] == d);
    assert(digits.contains(d));
    assert(vals.to_set().contains(d));
    let i = choose|i: int| 0 <= i < vals.len() && vals[i] == d;
    assert(s[unit_idx(u, i)] == d);
}

/// Soundness of the basic elimination: a digit determined at one cell of a
/// unit is used by no valid completion at any other cell of the unit, so
/// striking it there can never strike a completion's digit.
pub proof fn lemma_strike_sound(g: Seq<Cell>, s: Seq<u8>, u: int, i: int, j: int)
    requires
        solution_of(g, s),
        0 <= u < 27,
        0 <= i < 9,
        0 <= j < 9,
        i != j,
        g[unit_idx(u, j)] is Known,
    ensures
        s[unit_idx(u, i)] != cell_val(g[unit_idx(u, j)]),
{
    lemma_unit_bounds(u, i);
    lemma_unit_bounds(u, j);
    lemma_unit_inj(u, i, j);
    assert(s[unit_idx(u, j)] == cell_val(g[unit_idx(u, j)]));
}

/// Soundness of promotion by `check`: a cell whose candidates have narrowed
/// to a single digit takes, in every valid completion, exactly that digit.
pub proof fn lemma_naked_single_sound(g: Seq<Cell>, s: Seq<u8>, k: int, v: u8)
    requires
        solution_of(g, s),
        grid_wf(g),
        0 <= k < 81,
        g[k] is Possible,
        mask_card(cell_mask(g[k])) == 1,
        mask_has(cell_mask(g[k]), v as u16),
        1 <= v <= 9,
    ensures
        s[k] == v,
{
    assert(cell_has(g[k], s[k] as u16));
    assert(cell_wf(g[k]));
    lemma_card_one_unique(cell_mask(g[k]), v as u16, s[k] as u16);
}

/// Updating one cell preserves every valid completion that fits the new
/// cell's content.
pub proof fn lemma_solution_update(g: Seq<Cell>, s: Seq<u8>, k: int, c: Cell)
    requires
        solution_of(g, s),
        g.len() == 81,
        0 <= k < 81,
        c is Known ==> s[k] == cell_val(c),
        c is Possible ==> cell_has(c, s[k] as u16),
    ensures
        solution_of(g.update(k, c), s),
{
    let g2 = g.update(k, c);
    assert forall|k2: int| 0 <= k2 < 81 && (#[trigger] g2[k2]) is Known implies s[k2] == cell_val(
        g2[k2],
    ) by {
        if k2 != k {
            assert(g2[k2] == g[k2]);
        }
    }
    assert forall|k2: int| 0 <= k2 < 81 && (#[trigger] g2[k2]) is Possible implies cell_has(
        g2[k2],
        s[k2] as u16,
    ) by {
        if k2 != k {
            assert(g2[k2] == g[k2]);
        }
    }
}

/// An undetermined cell stripped of every candidate refutes the grid it
/// came from: since the rules preserve valid completions, a cell can only
/// be emptied where the puzzle already admitted no completion at all.
pub proof fn lemma_emptied_cell_refutes(g1: Seq<Cell>, g2: Seq<Cell>, k: int)
    requires
        forall|s: Seq<u8>| #[trigger] solution_of(g1, s) ==> solution_of(g2, s),
        0 <= k < 81,
        g2[k] is Possible,
        mask_card(cell_mask(g2[k])) == 0,
    ensures
        !exists|s: Seq<u8>| solution_of(g1, s),
{
    if exists|s: Seq<u8>| solution_of(g1, s) {
        let s = choose|s: Seq<u8>| solution_of(g1, s);
        assert(solution_of(g2, s));
        assert(cell_has(g2[k], s[k] as u16));
        lemma_count_one(cell_mask(g2[k]), s[k] as u16, 1);
    }
}

/// A consistent, fully determined refinement of a grid, read as an
/// assignment, is a valid completion of that grid: a solved run really does
/// solve the puzzle it started from.
pub proof fn lemma_solved_is_solution(g0: Seq<Cell>, g: Seq<Cell>)
    requires
        grid_wf(g),
        grid_narrows(g0, g),
        grid_all_known(g),
        grid_consistent(g),
    ensures
        solution_of(g0, Seq::new(81, |k: int| cell_val(g[k]))),
        solution_of(g, Seq::new(81, |k: int| cell_val(g[k]))),
{
    let s = Seq::new(81, |k: int| cell_val(g[k]));
    assert forall|k: int| 0 <= k < 81 implies 1 <= #[trigger] s[k] <= 9 by {
        assert(cell_wf(g[k]));
        assert(g[k] is Known);
    }
    assert forall|u: int, i: int, j: int|
        0 <= u < 27 && 0 <= i < 9 && 0 <= j < 9 && i != j implies #[trigger] s[unit_idx(u, i)]
        != #[trigger] s[unit_idx(u, j)] by {
        lemma_unit_bounds(u, i);
        lemma_unit_bounds(u, j);
        assert(unit_consistent(g, u));
        assert(g[unit_idx(u, i)] is Known);
        assert(g[unit_idx(u, j)] != g[unit_idx(u, i)]);
    }
    assert forall|k: int| 0 <= k < 81 && (#[trigger] g0[k]) is Known implies s[k] == cell_val(
        g0[k],
    ) by {
        assert(cell_narrows(g0[k], g[k]));
        assert(g[k] == g0[k]);
    }
    assert forall|k: int| 0 <= k < 81 && (#[trigger] g0[k]) is Possible implies cell_has(
        g0[k],
        s[k] as u16,
    ) by {
        assert(cell_narrows(g0[k], g[k]));
        assert(g[k] is Known);
    }
    assert forall|k: int| 0 <= k < 81 && (#[trigger] g[k]) is Known implies s[k] == cell_val(
        g[k],
    ) by {}
}

} // verus!

use vstd::prelude::*;
use vstd::set_lib::lemma_int_range;
use vstd::set_lib::lemma_len_subset;
use vstd::set_lib::set_int_range;

use itertools::Itertools;

use crate::cell::Cell;
use crate::cell::cell_leq;
use crate::cell::lemma_clear_cell_possible;
use crate::cell::lemma_count_facts;
use crate::cell::lemma_count_mono;
use crate::cell::lemma_fixed_cell_possible;
use crate::cell::lemma_sole_count;
use crate::index::BoardIdx;
use crate::index::SquareIdx;
use crate::index::col_of;
use crate::index::group_cell;
use crate::index::lemma_cell_in_groups;
use crate::index::lemma_group_cell_coords;
use crate::index::lemma_group_cell_injective;
use crate::index::lemma_group_cell_same_group;
use crate::index::lemma_same_group_witness;
use crate::index::row_of;
use crate::index::same_group;

verus! {

pub const BOARD_CELLS: usize = 81;

/// The fresh grid: every digit possible in every cell.
pub open spec fn init_cells() -> Seq<Cell> {
    Seq::new(81, |j: int| Cell(u16::MAX))
}

/// The fresh commitment record: no cell played.
pub open spec fn init_played() -> Seq<bool> {
    Seq::new(81, |j: int| false)
}

/// The grid after committing digit `d` at address `i`: cell `i` becomes the
/// singleton `{d}`, every other cell of `i`'s row, column or block loses the
/// candidate `d`, and all remaining cells are untouched.
pub open spec fn play_spec(cells: Seq<Cell>, i: int, d: u8) -> Seq<Cell> {
    Seq::new(
        81,
        |j: int|
            if j == i {
                Cell(1u16 << (d as u16))
            } else if same_group(i, j) {
                Cell(cells[j].0 & !(1u16 << (d as u16)))
            } else {
                cells[j]
            },
    )
}

/// Once a cell is committed, no peer cell in its row, column or block still
/// holds the committed digit as a candidate. This is the invariant that the
/// elimination rule maintains.
pub open spec fn elim_inv(cells: Seq<Cell>, played: Seq<bool>) -> bool {
    forall|i: int, j: int, d: u8|
        0 <= i < 81 && 0 <= j < 81 && i != j && played[j] && #[trigger] same_group(i, j) && (
        #[trigger] cells[j].sole_spec(d)) ==> !cells[i].possible_spec(d)
}

/// Structural well-formedness of a board: 81 cells, 81 commitment marks,
/// every committed cell narrowed to at most one candidate, and the
/// elimination invariant.
pub open spec fn board_wf(cells: Seq<Cell>, played: Seq<bool>) -> bool {
    &&& cells.len() == 81
    &&& played.len() == 81
    &&& forall|i: int| 0 <= i < 81 && #[trigger] played[i] ==> cells[i].count_spec() <= 1
    &&& elim_inv(cells, played)
}

/// No cell is reduced to zero candidates.
pub open spec fn all_nonempty(cells: Seq<Cell>) -> bool {
    forall|i: int| 0 <= i < 81 ==> (#[trigger] cells[i]).count_spec() >= 1
}

/// No two distinct cells of one constraint group are both committed to the
/// same digit.
pub open spec fn no_dups(cells: Seq<Cell>) -> bool {
    forall|i: int, j: int, d: u8|
        0 <= i < 81 && 0 <= j < 81 && i != j && #[trigger] same_group(i, j) && (
        #[trigger] cells[i].sole_spec(d)) ==> !cells[j].sole_spec(d)
}

/// The structural validity check: no contradicted cell and no duplicated
/// committed digit anywhere.
pub open spec fn board_ok(cells: Seq<Cell>) -> bool {
    all_nonempty(cells) && no_dups(cells)
}

/// Every cell has been committed.
pub open spec fn all_played(played: Seq<bool>) -> bool {
    forall|i: int| 0 <= i < 81 ==> #[trigger] played[i]
}

/// Board `(c2, p2)` narrows board `(c1, p1)`: candidates only disappear and
/// commitments only grow.
pub open spec fn refines(c1: Seq<Cell>, p1: Seq<bool>, c2: Seq<Cell>, p2: Seq<bool>) -> bool {
    &&& forall|j: int| 0 <= j < 81 ==> cell_leq(#[trigger] c2[j], c1[j])
    &&& forall|j: int| 0 <= j < 81 && #[trigger] p1[j] ==> p2[j]
}

/// How many cells are committed among the addresses `0..n`.
pub open spec fn count_played(p: Seq<bool>, n: int) -> int
    decreases n,
{
    if n <= 0 {
        0
    } else {
        count_played(p, n - 1) + if p[n - 1] {
            1int
        } else {
            0int
        }
    }
}

/// The 81-cell grid of possibility sets, together with the set of cell
/// addresses whose digit has been committed ("played").
pub struct Board {
    pub cells: Vec<Cell>,
    pub played: Vec<bool>,
}

impl Board {
    pub open spec fn wf(self) -> bool {
        board_wf(self.cells@, self.played@)
    }
}

impl Clone for Board {
    fn clone(&self) -> (r: Self)
        ensures
            r.cells@ == self.cells@,
            r.played@ == self.played@,
    {
        let mut cells: Vec<Cell> = Vec::new();
        let mut i: usize = 0;
        while i < self.cells.len()
            invariant
                i <= self.cells@.len(),
                cells@.len() == i,
                forall|k: int| 0 <= k < i ==> cells@[k] == self.cells@[k],
            decreases self.cells@.len() - i,
        {
            cells.push(self.cells[i]);
            i = i + 1;
        }
        let mut played: Vec<bool> = Vec::new();
        let mut j: usize = 0;
        while j < self.played.len()
            invariant
                j <= self.played@.len(),
                played@.len() == j,
                forall|k: int| 0 <= k < j ==> played@[k] == self.played@[k],
            decreases self.played@.len() - j,
        {
            played.push(self.played[j]);
            j = j + 1;
        }
        proof {
            assert(cells@ =~= self.cells@);
            assert(played@ =~= self.played@);
        }
        Board { cells, played }
    }
}

impl Board {
    /// A board with every digit still possible everywhere.
    pub fn new() -> (r: Self)
        ensures
            r.wf(),
            r.cells@ == init_cells(),
            r.played@ == init_played(),
    {
        let cells: Vec<Cell> = vec![Cell::any_possible(); BOARD_CELLS];
        let played: Vec<bool> = vec![false; BOARD_CELLS];
        proof {
            assert(cells@ =~= init_cells());
            assert(played@ =~= init_played());
        }
        Board { cells, played }
    }

    pub fn get(&self, idx: BoardIdx) -> (r: Cell)
        requires
            idx.wf(),
            self.cells@.len() == 81,
        ensures
            r == self.cells@[idx.idx as int],
    {
        self.cells[idx.idx]
    }

    fn set_raw(&mut self, idx: BoardIdx, cell: Cell)
        requires
            idx.wf(),
            old(self).cells@.len() == 81,
        ensures
            final(self).cells@ == old(self).cells@.update(idx.idx as int, cell),
            final(self).played@ == old(self).played@,
    {
        self.cells[idx.idx] = cell;
    }

    /// Whether the cell at `idx` has been committed.
    pub fn is_played(&self, idx: BoardIdx) -> (r: bool)
        requires
            idx.wf(),
            self.played@.len() == 81,
        ensures
            r == self.played@[idx.idx as int],
    {
        self.played[idx.idx]
    }

    /// The nine coordinates of column `col`, top to bottom.
    pub fn iter_col(&self, col: usize) -> (r: Vec<BoardIdx>)
        requires
            col < 9,
        ensures
            r@.len() == 9,
            forall|k: int|
                0 <= k < 9 ==> (#[trigger] r@[k]).wf() && r@[k].idx as int == group_cell(
                    col as int,
                    k,
                ),
    {
        let mut r: Vec<BoardIdx> = Vec::new();
        let mut row: usize = 0;
        while row < 9
            invariant
                col < 9,
                row <= 9,
                r@.len() == row,
                forall|k: int|
                    0 <= k < row ==> (#[trigger] r@[k]).wf() && r@[k].idx as int == group_cell(
                        col as int,
                        k,
                    ),
            decreases 9 - row,
        {
            r.push(BoardIdx::new(col, row));
            row = row + 1;
        }
        r
    }

    /// The nine coordinates of row `row`, left to right.
    pub fn iter_row(&self, row: usize) -> (r: Vec<BoardIdx>)
        requires
            row < 9,
        ensures
            r@.len() == 9,
            forall|k: int|
                0 <= k < 9 ==> (#[trigger] r@[k]).wf() && r@[k].idx as int == group_cell(
                    9 + row as int,
                    k,
                ),
    {
        let mut r: Vec<BoardIdx> = Vec::new();
        let mut col: usize = 0;
        while col < 9
            invariant
                row < 9,
                col <= 9,
                r@.len() == col,
                forall|k: int|
                    0 <= k < col ==> (#[trigger] r@[k]).wf() && r@[k].idx as int == group_cell(
                        9 + row as int,
                        k,
                    ),
            decreases 9 - col,
        {
            r.push(BoardIdx::new(col, row));
            col = col + 1;
        }
        r
    }

    /// The nine coordinates of a 3×3 block, walked column by column.
    pub fn iter_square(&self, square: SquareIdx) -> (r: Vec<BoardIdx>)
        ensures
            r@.len() == 9,
            forall|k: int|
                0 <= k < 9 ==> (#[trigger] r@[k]).wf() && r@[k].idx as int == group_cell(
                    18 + square.to_idx_spec(),
                    k,
                ),
    {
        let offset = square.to_topleft_cell();
        let ghost s = square.to_idx_spec();
        let mut r: Vec<BoardIdx> = Vec::new();
        let mut k: usize = 0;
        while k < 9
            invariant
                k <= 9,
                r@.len() == k,
                offset.col == (s % 3) * 3,
                offset.row == (s / 3) * 3,
                0 <= s < 9,
                forall|k2: int|
                    0 <= k2 < k ==> (#[trigger] r@[k2]).wf() && r@[k2].idx as int == group_cell(
                        18 + s,
                        k2,
                    ),
            decreases 9 - k,
        {
            let col = k / 3;
            let row = k % 3;
            r.push(BoardIdx::new(col + offset.col, row + offset.row));
            k = k + 1;
        }
        r
    }
}

/// Relies on itertools' `Itertools::unique`: it yields the distinct elements
/// of the iterator in first-occurrence order, dropping later duplicates.
#[verifier::external_body]
fn unique_indices(v: Vec<BoardIdx>) -> (r: Vec<BoardIdx>)
    ensures
        forall|x: BoardIdx| r@.contains(x) <==> v@.contains(x),
        forall|k1: int, k2: int| 0 <= k1 < k2 < r@.len() ==> r@[k1] != r@[k2],
{
    v.into_iter().unique().collect()
}

/// Committing a digit preserves structural well-formedness.
pub proof fn lemma_play_wf(cells: Seq<Cell>, played: Seq<bool>, i: int, d: u8)
    requires
        board_wf(cells, played),
        0 <= i < 81,
        1 <= d <= 9,
    ensures
        board_wf(play_spec(cells, i, d), played.update(i, true)),
{
    let c2 = play_spec(cells, i, d);
    let p2 = played.update(i, true);
    lemma_fixed_cell_possible(d);
    assert forall|j: int| 0 <= j < 81 && j != i implies cell_leq(c2[j], cells[j]) by {
        lemma_clear_cell_possible(cells[j], d);
    }
    assert forall|j: int| 0 <= j < 81 && #[trigger] p2[j] implies c2[j].count_spec() <= 1 by {
        if j == i {
            assert(c2[i].sole_spec(d));
            lemma_sole_count(c2[i], d);
        } else {
            lemma_count_mono(c2[j], cells[j], 10);
        }
    }
    assert forall|a: int, b: int, e: u8|
        0 <= a < 81 && 0 <= b < 81 && a != b && p2[b] && #[trigger] same_group(a, b) && (
        #[trigger] c2[b].sole_spec(e)) implies !c2[a].possible_spec(e) by {
        lemma_clear_cell_possible(cells[a], d);
        lemma_clear_cell_possible(cells[b], d);
        if b == i {
            // the newly committed cell: its sole candidate is d, and every
            // same-group peer just lost d
            assert(e == d);
            assert(same_group(i, a));
        } else {
            // an already committed cell: its sole candidate survives the
            // narrowing, so the old invariant applies
            assert(cell_leq(c2[b], cells[b]));
            assert(cells[b].possible_spec(e));
            assert(played[b] && cells[b].count_spec() <= 1);
            lemma_count_facts(cells[b]);
            assert(cells[b].sole_spec(e));
            if a == i {
                if e == d {
                    assert(same_group(i, b));
                    assert(!c2[b].possible_spec(d));
                    assert(false);
                }
                assert(!c2[i].possible_spec(e));
            } else {
                assert(same_group(a, b));
                assert(!cells[a].possible_spec(e));
            }
        }
    }
}

/// Committing a digit that is a candidate of its cell only narrows the board.
pub proof fn lemma_play_refines(cells: Seq<Cell>, played: Seq<bool>, i: int, d: u8)
    requires
        cells.len() == 81,
        played.len() == 81,
        0 <= i < 81,
        cells[i].possible_spec(d),
    ensures
        refines(cells, played, play_spec(cells, i, d), played.update(i, true)),
{
    let c2 = play_spec(cells, i, d);
    lemma_fixed_cell_possible(d);
    assert forall|j: int| 0 <= j < 81 implies cell_leq(#[trigger] c2[j], cells[j]) by {
        if j != i {
            lemma_clear_cell_possible(cells[j], d);
        }
    }
}

/// Narrowing composes.
pub proof fn lemma_refines_trans(
    c1: Seq<Cell>,
    p1: Seq<bool>,
    c2: Seq<Cell>,
    p2: Seq<bool>,
    c3: Seq<Cell>,
    p3: Seq<bool>,
)
    requires
        refines(c1, p1, c2, p2),
        refines(c2, p2, c3, p3),
    ensures
        refines(c1, p1, c3, p3),
{
    assert forall|j: int| 0 <= j < 81 implies cell_leq(#[trigger] c3[j], c1[j]) by {
        assert(cell_leq(c3[j], c2[j]));
        assert(cell_leq(c2[j], c1[j]));
    }
}

/// Committing the same digit at the same cell a second time changes nothing:
/// the elimination rule is idempotent.
pub proof fn lemma_play_idempotent(cells: Seq<Cell>, i: int, d: u8)
    requires
        cells.len() == 81,
        0 <= i < 81,
        1 <= d <= 9,
    ensures
        play_spec(play_spec(cells, i, d), i, d) == play_spec(cells, i, d),
{
    let c1 = play_spec(cells, i, d);
    let c2 = play_spec(c1, i, d);
    assert forall|j: int| 0 <= j < 81 implies c2[j] == c1[j] by {
        if j != i && same_group(i, j) {
            let a = cells[j].0;
            let m = d as u16;
            assert((a & !(1u16 << m)) & !(1u16 << m) == a & !(1u16 << m)) by (bit_vector);
        }
    }
    assert(c2 =~= c1);
}

/// Re-propagating a digit never re-adds a candidate: every peer cell of the
/// played cell only loses candidates.
pub proof fn lemma_play_tightens_peers(cells: Seq<Cell>, i: int, d: u8)
    requires
        cells.len() == 81,
        0 <= i < 81,
        1 <= d <= 9,
    ensures
        forall|j: int, e: u8|
            0 <= j < 81 && j != i && (#[trigger] play_spec(cells, i, d)[j].possible_spec(e))
                ==> cells[j].possible_spec(e),
{
    let c2 = play_spec(cells, i, d);
    assert forall|j: int, e: u8|
        0 <= j < 81 && j != i && (#[trigger] c2[j].possible_spec(e)) implies cells[j].possible_spec(
        e,
    ) by {
        if same_group(i, j) {
            lemma_clear_cell_possible(cells[j], d);
        }
    }
}

impl Board {
    /// Commit `num` at `idx`: the cell becomes the singleton `{num}`, the
    /// address is marked played, and every other cell sharing its row, column
    /// or 3×3 block loses the candidate `num`.
    pub fn play_cell(&mut self, idx: BoardIdx, num: u8)
        requires
            old(self).wf(),
            idx.wf(),
            1 <= num <= 9,
        ensures
            final(self).wf(),
            final(self).cells@ == play_spec(old(self).cells@, idx.idx as int, num),
            final(self).played@ == old(self).played@.update(idx.idx as int, true),
    {
        let ghost cells0 = self.cells@;
        let ghost i_int = idx.idx as int;
        let i = idx.idx;
        self.played[i] = true;
        self.set_raw(idx, Cell::fixed(num));
        let ghost mid = self.cells@;
        let square = idx.square();
        let mut targets = self.iter_square(square);
        let mut cols = self.iter_col(idx.col);
        let mut rows = self.iter_row(idx.row);
        let ghost sq_part = targets@;
        let ghost col_part = cols@;
        let ghost row_part = rows@;
        targets.append(&mut cols);
        targets.append(&mut rows);
        let ghost cat = targets@;
        proof {
            lemma_cell_in_groups(i_int);
            assert(row_of(i_int) == idx.row && col_of(i_int) == idx.col) by (nonlinear_arith)
                requires
                    i_int == idx.col + idx.row * 9 && idx.col < 9 && idx.row < 9 && row_of(i_int)
                        == i_int / 9 && col_of(i_int) == i_int % 9,
            ;
            assert forall|t: BoardIdx| targets@.contains(t) implies t.wf() && 0 <= t.idx < 81
                && same_group(i_int, t.idx as int) by {
                let p = choose|p: int| 0 <= p < targets@.len() && targets@[p] == t;
                if p < 9 {
                    assert(t == sq_part[p]);
                    lemma_group_cell_coords(18 + square.to_idx_spec(), p);
                    lemma_group_cell_same_group(
                        18 + square.to_idx_spec(),
                        col_of(i_int) % 3 * 3 + row_of(i_int) % 3,
                        p,
                    );
                } else if p < 18 {
                    assert(t == col_part[p - 9]);
                    lemma_group_cell_coords(col_of(i_int), p - 9);
                    lemma_group_cell_same_group(col_of(i_int), row_of(i_int), p - 9);
                } else {
                    assert(t == row_part[p - 18]);
                    lemma_group_cell_coords(9 + row_of(i_int), p - 18);
                    lemma_group_cell_same_group(9 + row_of(i_int), col_of(i_int), p - 18);
                }
            }
            assert forall|j: int| 0 <= j < 81 && same_group(i_int, j) implies exists|t: BoardIdx|
                #[trigger] targets@.contains(t) && t.idx == j by {
                lemma_cell_in_groups(j);
                if col_of(j) == col_of(i_int) {
                    let t = col_part[row_of(j)];
                    assert(targets@[9 + row_of(j)] == t);
                    assert(targets@.contains(t) && t.idx == j);
                } else if row_of(j) == row_of(i_int) {
                    let t = row_part[col_of(j)];
                    assert(targets@[18 + col_of(j)] == t);
                    assert(targets@.contains(t) && t.idx == j);
                } else {
                    let k = col_of(j) % 3 * 3 + row_of(j) % 3;
                    let t = sq_part[k];
                    assert(18 + row_of(j) / 3 * 3 + col_of(j) / 3 == 18 + square.to_idx_spec());
                    assert(targets@[k] == t);
                    assert(targets@.contains(t) && t.idx == j);
                }
            }
        }
        let targets = unique_indices(targets);
        proof {
            assert forall|t: BoardIdx| targets@.contains(t) implies t.wf() && 0 <= t.idx < 81
                && same_group(i_int, t.idx as int) by {
                assert(cat.contains(t));
            }
            assert forall|j: int| 0 <= j < 81 && same_group(i_int, j) implies exists|t: BoardIdx|
                #[trigger] targets@.contains(t) && t.idx == j by {
                let t = choose|t: BoardIdx| #[trigger] cat.contains(t) && t.idx == j;
                assert(targets@.contains(t));
            }
        }
        let num_targets = targets.len();
        let mut n: usize = 0;
        while n < num_targets
            invariant
                num_targets == targets@.len(),
                n <= num_targets,
                idx.wf(),
                1 <= num <= 9,
                i_int == idx.idx as int,
                0 <= i_int < 81,
                mid == cells0.update(i_int, Cell(1u16 << (num as u16))),
                cells0.len() == 81,
                self.cells@.len() == 81,
                self.played@ == old(self).played@.update(i_int, true),
                forall|t: BoardIdx| targets@.contains(t) ==> t.wf() && 0 <= t.idx < 81,
                forall|j: int|
                    0 <= j < 81 ==> #[trigger] self.cells@[j] == (if j != i_int && exists|p: int|
                        0 <= p < n && (#[trigger] targets@[p]).idx == j {
                        Cell(mid[j].0 & !(1u16 << (num as u16)))
                    } else {
                        mid[j]
                    }),
            decreases num_targets - n,
        {
            let t = targets[n];
            if !(t.col == idx.col && t.row == idx.row) {
                proof {
                    assert(targets@.contains(targets@[n as int]));
                    assert(t.wf());
                    if t.idx == idx.idx {
                        assert(t.col + t.row * 9 == idx.col + idx.row * 9);
                        assert(t.col == idx.col && t.row == idx.row);
                        assert(false);
                    }
                }
                let mut c = self.get(t);
                c.set_possible(num, false);
                self.set_raw(t, c);
                proof {
                    let tj = t.idx as int;
                    assert forall|j: int| 0 <= j < 81 implies #[trigger] self.cells@[j] == (if j
                        != i_int && exists|p: int|
                        0 <= p < n + 1 && (#[trigger] targets@[p]).idx == j {
                        Cell(mid[j].0 & !(1u16 << (num as u16)))
                    } else {
                        mid[j]
                    }) by {
                        if j == tj {
                            assert(targets@[n as int].idx == j);
                            if exists|p: int| 0 <= p < n && (#[trigger] targets@[p]).idx == j {
                                let a = mid[j].0;
                                let m = num as u16;
                                assert((a & !(1u16 << m)) & !(1u16 << m) == a & !(1u16 << m))
                                    by (bit_vector);
                            }
                        } else {
                            if exists|p: int| 0 <= p < n + 1 && (#[trigger] targets@[p]).idx == j {
                                let p = choose|p: int|
                                    0 <= p < n + 1 && (#[trigger] targets@[p]).idx == j;
                                assert(p < n);
                            }
                        }
                    }
                }
            } else {
                proof {
                    assert(targets@.contains(targets@[n as int]));
                    assert(t.wf());
                    assert(t.idx == idx.idx);
                    assert forall|j: int| 0 <= j < 81 implies #[trigger] self.cells@[j] == (if j
                        != i_int && exists|p: int|
                        0 <= p < n + 1 && (#[trigger] targets@[p]).idx == j {
                        Cell(mid[j].0 & !(1u16 << (num as u16)))
                    } else {
                        mid[j]
                    }) by {
                        if j != i_int && exists|p: int| 0 <= p < n + 1 && (#[trigger] targets@[p]).idx
                            == j {
                            let p = choose|p: int|
                                0 <= p < n + 1 && (#[trigger] targets@[p]).idx == j;
                            assert(p < n);
                        }
                    }
                }
            }
            n = n + 1;
        }
        proof {
            assert forall|j: int| 0 <= j < 81 implies self.cells@[j] == play_spec(
                cells0,
                i_int,
                num,
            )[j] by {
                if j == i_int {
                    assert(self.cells@[j] == mid[j]);
                } else if same_group(i_int, j) {
                    let t = choose|t: BoardIdx| #[trigger] targets@.contains(t) && t.idx == j;
                    let p = choose|p: int| 0 <= p < targets@.len() && targets@[p] == t;
                    assert(targets@[p].idx == j);
                } else {
                    assert(!(exists|p: int| 0 <= p < num_targets && (#[trigger] targets@[p]).idx
                        == j)) by {
                        if exists|p: int| 0 <= p < num_targets && (#[trigger] targets@[p]).idx
                            == j {
                            let p = choose|p: int|
                                0 <= p < num_targets && (#[trigger] targets@[p]).idx == j;
                            assert(targets@.contains(targets@[p]));
                        }
                    }
                }
            }
            assert(self.cells@ =~= play_spec(cells0, i_int, num));
            lemma_play_wf(cells0, old(self).played@, i_int, num);
        }
    }
}

impl Board {
    /// The structural validity check: `Ok` exactly when no cell is reduced to
    /// zero candidates and no constraint group holds two distinct cells
    /// committed to the same digit.
    pub fn verify(&self) -> (r: Result<(), ()>)
        requires
            self.wf(),
        ensures
            r is Ok <==> board_ok(self.cells@),
    {
        let mut g: usize = 0;
        while g < 27
            invariant
                self.wf(),
                g <= 27,
                forall|g2: int, k: int|
                    0 <= g2 < g && 0 <= k < 9 ==> (#[trigger] self.cells@[group_cell(
                        g2,
                        k,
                    )]).count_spec() >= 1,
                forall|g2: int, k1: int, k2: int, d: u8|
                    #![trigger self.cells@[group_cell(g2, k1)].sole_spec(d), self.cells@[group_cell(g2, k2)].sole_spec(d)]
                    0 <= g2 < g && 0 <= k1 < 9 && 0 <= k2 < 9 && k1 != k2 && self.cells@[group_cell(
                        g2,
                        k1,
                    )].sole_spec(d) ==> !self.cells@[group_cell(g2, k2)].sole_spec(d),
            decreases 27 - g,
        {
            let group: Vec<BoardIdx> = if g < 9 {
                self.iter_col(g)
            } else if g < 18 {
                self.iter_row(g - 9)
            } else {
                self.iter_square(SquareIdx::from_idx(g - 18))
            };
            let ghost gi = g as int;
            proof {
                assert forall|k: int| 0 <= k < 9 implies (#[trigger] group@[k]).wf()
                    && group@[k].idx as int == group_cell(gi, k) by {}
            }
            let mut seen: u16 = 0;
            proof {
                assert forall|d: u8| #![trigger 0u16 >> (d as u16)] 1 <= d <= 9 implies ((0u16 >> (
                d as u16)) & 1u16 != 1u16) by {
                    assert((0u16 >> (d as u16)) & 1u16 == 0u16) by (bit_vector);
                }
            }
            let mut k: usize = 0;
            while k < 9
                invariant
                    self.wf(),
                    k <= 9,
                    gi == g as int,
                    0 <= gi < 27,
                    group@.len() == 9,
                    forall|k2: int|
                        0 <= k2 < 9 ==> (#[trigger] group@[k2]).wf() && group@[k2].idx as int
                            == group_cell(gi, k2),
                    forall|d: u8|
                        #![trigger seen >> (d as u16)]
                        1 <= d <= 9 ==> (((seen >> (d as u16)) & 1u16 == 1u16) <==> exists|k2: int|
                            0 <= k2 < k && (#[trigger] self.cells@[group_cell(gi, k2)]).sole_spec(
                                d,
                            )),
                    forall|k2: int|
                        0 <= k2 < k ==> (#[trigger] self.cells@[group_cell(gi, k2)]).count_spec()
                            >= 1,
                    forall|k1: int, k2: int, d: u8|
                        #![trigger self.cells@[group_cell(gi, k1)].sole_spec(d), self.cells@[group_cell(gi, k2)].sole_spec(d)]
                        0 <= k1 < k && 0 <= k2 < k && k1 != k2 && self.cells@[group_cell(
                            gi,
                            k1,
                        )].sole_spec(d) ==> !self.cells@[group_cell(gi, k2)].sole_spec(d),
                decreases 9 - k,
            {
                let idx = group[k];
                let ghost ki = k as int;
                proof {
                    lemma_group_cell_coords(gi, ki);
                }
                let cell = self.get(idx);
                let poss = cell.possibilities();
                if poss.len() == 0 {
                    proof {
                        assert(self.cells@[group_cell(gi, ki)].count_spec() == 0);
                        assert(!all_nonempty(self.cells@));
                    }
                    return Err(());
                }
                if poss.len() == 1 {
                    let d = poss[0];
                    proof {
                        assert(cell.possible_spec(d));
                        assert forall|e: u8| cell.possible_spec(e) implies e == d by {
                            assert(poss@.contains(e));
                            let ke = choose|ke: int| 0 <= ke < poss@.len() && poss@[ke] == e;
                            assert(ke == 0);
                        }
                        assert(cell.sole_spec(d));
                    }
                    if (seen >> (d as u16)) & 1u16 == 1u16 {
                        proof {
                            let k2 = choose|k2: int|
                                0 <= k2 < k && (#[trigger] self.cells@[group_cell(
                                    gi,
                                    k2,
                                )]).sole_spec(d);
                            lemma_group_cell_injective(gi, k2, ki);
                            lemma_group_cell_same_group(gi, k2, ki);
                            lemma_group_cell_coords(gi, k2);
                            assert(same_group(group_cell(gi, k2), group_cell(gi, ki)));
                            assert(!no_dups(self.cells@));
                        }
                        return Err(());
                    }
                    let ghost seen0 = seen;
                    seen = seen | 1u16 << (d as u16);
                    proof {
                        assert forall|e: u8| #![trigger seen >> (e as u16)] 1 <= e <= 9 implies (((seen >> (e as u16)) & 1u16
                            == 1u16) <==> exists|k2: int|
                            0 <= k2 < k + 1 && (#[trigger] self.cells@[group_cell(
                                gi,
                                k2,
                            )]).sole_spec(e)) by {
                            let dd = d as u16;
                            let ee = e as u16;
                            assert(((seen0 | (1u16 << dd)) >> ee) & 1u16 == (if ee == dd {
                                1u16
                            } else {
                                (seen0 >> ee) & 1u16
                            })) by (bit_vector)
                                requires
                                    1 <= dd <= 9 && 1 <= ee <= 9,
                            ;
                            if e == d {
                                assert(self.cells@[group_cell(gi, ki)].sole_spec(e));
                            } else {
                                if exists|k2: int|
                                    0 <= k2 < k + 1 && (#[trigger] self.cells@[group_cell(
                                        gi,
                                        k2,
                                    )]).sole_spec(e) {
                                    let k2 = choose|k2: int|
                                        0 <= k2 < k + 1 && (#[trigger] self.cells@[group_cell(
                                            gi,
                                            k2,
                                        )]).sole_spec(e);
                                    assert(k2 < k);
                                }
                            }
                        }
                        assert forall|k1: int, k2: int, e: u8|
                            0 <= k1 < k + 1 && 0 <= k2 < k + 1 && k1 != k2 && self.cells@[group_cell(
                                gi,
                                k1,
                            )].sole_spec(e) implies !self.cells@[group_cell(gi, k2)].sole_spec(
                            e,
                        ) by {
                            if self.cells@[group_cell(gi, k2)].sole_spec(e) {
                                if k1 == ki || k2 == ki {
                                    assert(e == d);
                                    let ko = if k1 == ki {
                                        k2
                                    } else {
                                        k1
                                    };
                                    assert(0 <= ko < k && self.cells@[group_cell(gi, ko)].sole_spec(
                                        d,
                                    ));
                                    assert((seen0 >> (d as u16)) & 1u16 == 1u16);
                                    assert(false);
                                }
                            }
                        }
                    }
                } else {
                    proof {
                        assert(cell.count_spec() >= 2);
                        assert forall|e: u8| #![trigger seen >> (e as u16)] 1 <= e <= 9 implies (((seen >> (e as u16)) & 1u16
                            == 1u16) <==> exists|k2: int|
                            0 <= k2 < k + 1 && (#[trigger] self.cells@[group_cell(
                                gi,
                                k2,
                            )]).sole_spec(e)) by {
                            if exists|k2: int|
                                0 <= k2 < k + 1 && (#[trigger] self.cells@[group_cell(
                                    gi,
                                    k2,
                                )]).sole_spec(e) {
                                let k2 = choose|k2: int|
                                    0 <= k2 < k + 1 && (#[trigger] self.cells@[group_cell(
                                        gi,
                                        k2,
                                    )]).sole_spec(e);
                                if k2 == ki {
                                    lemma_sole_count(cell, e);
                                    assert(false);
                                }
                            }
                        }
                        assert forall|k1: int, k2: int, e: u8|
                            0 <= k1 < k + 1 && 0 <= k2 < k + 1 && k1 != k2 && self.cells@[group_cell(
                                gi,
                                k1,
                            )].sole_spec(e) implies !self.cells@[group_cell(gi, k2)].sole_spec(
                            e,
                        ) by {
                            if k1 == ki {
                                lemma_sole_count(cell, e);
                            }
                            if k2 == ki && self.cells@[group_cell(gi, k2)].sole_spec(e) {
                                lemma_sole_count(cell, e);
                            }
                        }
                    }
                }
                k = k + 1;
            }
            g = g + 1;
        }
        proof {
            assert forall|i: int| 0 <= i < 81 implies (#[trigger] self.cells@[i]).count_spec()
                >= 1 by {
                lemma_cell_in_groups(i);
                assert(self.cells@[group_cell(col_of(i), row_of(i))].count_spec() >= 1);
            }
            assert forall|i: int, j: int, d: u8|
                0 <= i < 81 && 0 <= j < 81 && i != j && #[trigger] same_group(i, j) && (
                #[trigger] self.cells@[i].sole_spec(d)) implies !self.cells@[j].sole_spec(d) by {
                if self.cells@[j].sole_spec(d) {
                    lemma_same_group_witness(i, j);
                    let (gg, k1, k2) = choose|gg: int, k1: int, k2: int|
                        0 <= gg < 27 && 0 <= k1 < 9 && 0 <= k2 < 9 && k1 != k2 && group_cell(gg, k1)
                            == i && group_cell(gg, k2) == j;
                    assert(self.cells@[group_cell(gg, k1)].sole_spec(d));
                    assert(!self.cells@[group_cell(gg, k2)].sole_spec(d));
                }
            }
        }
        Ok(())
    }
}

/// The mark denoted by one character of the grid notation: a digit
/// `'1'..='9'` is a fixed clue, `'x'` or `'X'` an explicitly empty cell
/// (recorded as `0`); every other character carries no mark.
pub open spec fn mark_of(c: char) -> Option<u8> {
    if c == '1' {
        Some(1u8)
    } else if c == '2' {
        Some(2u8)
    } else if c == '3' {
        Some(3u8)
    } else if c == '4' {
        Some(4u8)
    } else if c == '5' {
        Some(5u8)
    } else if c == '6' {
        Some(6u8)
    } else if c == '7' {
        Some(7u8)
    } else if c == '8' {
        Some(8u8)
    } else if c == '9' {
        Some(9u8)
    } else if c == 'x' || c == 'X' {
        Some(0u8)
    } else {
        None
    }
}

/// The marks of a character sequence, in order, unmarked characters dropped.
pub open spec fn marks(s: Seq<char>) -> Seq<u8>
    decreases s.len(),
{
    if s.len() == 0 {
        Seq::empty()
    } else {
        (match mark_of(s[0]) {
            Some(m) => seq![m],
            None => Seq::empty(),
        }) + marks(s.drop_first())
    }
}

/// The grid seeded with the digit clues among the first `n` marks, each
/// committed at consecutive row-major addresses; positions past the end of
/// the marks, and positions marked empty, are left untouched.
pub open spec fn seeded_cells(ms: Seq<u8>, n: int) -> Seq<Cell>
    decreases n,
{
    if n <= 0 {
        init_cells()
    } else if n - 1 < ms.len() && 1 <= ms[n - 1] <= 9 {
        play_spec(seeded_cells(ms, n - 1), n - 1, ms[n - 1])
    } else {
        seeded_cells(ms, n - 1)
    }
}

/// The commitment record matching `seeded_cells`.
pub open spec fn seeded_played(ms: Seq<u8>, n: int) -> Seq<bool>
    decreases n,
{
    if n <= 0 {
        init_played()
    } else if n - 1 < ms.len() && 1 <= ms[n - 1] <= 9 {
        seeded_played(ms, n - 1).update(n - 1, true)
    } else {
        seeded_played(ms, n - 1)
    }
}

impl Board {
    /// Build the initial board from the textual grid notation: each digit
    /// character commits a clue at the next row-major cell, `'x'` or `'X'`
    /// leaves the next cell empty, and every other character is ignored.
    /// When fewer than 81 marks are supplied the remaining cells stay empty.
    pub fn from_str(board_str: &str) -> (r: Board)
        ensures
            r.wf(),
            r.cells@ == seeded_cells(marks(board_str@), 81),
            r.played@ == seeded_played(marks(board_str@), 81),
    {
        let mut ms: Vec<u8> = Vec::new();
        let n = board_str.unicode_len();
        proof {
            assert(board_str@.skip(0) =~= board_str@);
            assert(Seq::<u8>::empty() + marks(board_str@) =~= marks(board_str@));
        }
        let mut i: usize = 0;
        while i < n
            invariant
                n == board_str@.len(),
                i <= n,
                marks(board_str@) == ms@ + marks(board_str@.skip(i as int)),
                forall|p: int| 0 <= p < ms@.len() ==> #[trigger] ms@[p] <= 9,
            decreases n - i,
        {
            let c = board_str.get_char(i);
            let m: Option<u8> = if c == '1' {
                Some(1)
            } else if c == '2' {
                Some(2)
            } else if c == '3' {
                Some(3)
            } else if c == '4' {
                Some(4)
            } else if c == '5' {
                Some(5)
            } else if c == '6' {
                Some(6)
            } else if c == '7' {
                Some(7)
            } else if c == '8' {
                Some(8)
            } else if c == '9' {
                Some(9)
            } else if c == 'x' || c == 'X' {
                Some(0)
            } else {
                None
            };
            let ghost pre = ms@;
            if let Some(v) = m {
                ms.push(v);
            }
            proof {
                let ch = board_str@[i as int];
                assert(m == mark_of(ch));
                let rest = board_str@.skip(i as int);
                let rest2 = board_str@.skip(i as int + 1);
                assert(rest.len() == n - i);
                assert(rest[0] == ch);
                assert(rest.drop_first() =~= rest2);
                assert(marks(rest) == (match mark_of(ch) {
                    Some(mm) => seq![mm],
                    None => Seq::<u8>::empty(),
                }) + marks(rest2));
                match m {
                    Some(v) => {
                        assert(ms@ =~= pre + seq![v]);
                        assert((pre + seq![v]) + marks(rest2) =~= pre + (seq![v] + marks(rest2)));
                    },
                    None => {
                        assert(Seq::<u8>::empty() + marks(rest2) =~= marks(rest2));
                    },
                }
            }
            i = i + 1;
        }
        proof {
            assert(board_str@.skip(n as int) =~= Seq::<char>::empty());
            assert(marks(board_str@) =~= ms@);
        }
        let mut board = Board::new();
        let num_marks = ms.len();
        let mut p: usize = 0;
        while p < 81
            invariant
                p <= 81,
                num_marks == ms@.len(),
                forall|q: int| 0 <= q < ms@.len() ==> #[trigger] ms@[q] <= 9,
                board.wf(),
                board.cells@ == seeded_cells(ms@, p as int),
                board.played@ == seeded_played(ms@, p as int),
            decreases 81 - p,
        {
            if p < num_marks {
                let m = ms[p];
                if 1 <= m && m <= 9 {
                    let idx = BoardIdx::new(p % 9, p / 9);
                    proof {
                        assert(p % 9 + (p / 9) * 9 == p) by (nonlinear_arith)
                            requires
                                0 <= p < 81,
                        ;
                    }
                    board.play_cell(idx, m);
                }
            }
            p = p + 1;
        }
        board
    }
}

/// A fully committed board without contradicted cells is structurally valid.
pub proof fn lemma_full_ok(cells: Seq<Cell>, played: Seq<bool>)
    requires
        board_wf(cells, played),
        all_played(played),
        forall|i: int| 0 <= i < 81 ==> (#[trigger] cells[i]).count_spec() >= 1,
    ensures
        board_ok(cells),
{
    assert forall|i: int, j: int, d: u8|
        0 <= i < 81 && 0 <= j < 81 && i != j && #[trigger] same_group(i, j) && (
        #[trigger] cells[i].sole_spec(d)) implies !cells[j].sole_spec(d) by {
        if cells[j].sole_spec(d) {
            assert(played[j]);
            assert(!cells[i].possible_spec(d));
        }
    }
}

/// A complete assignment of one digit to every cell that satisfies the
/// uniqueness constraint of every row, column and block.
pub open spec fn assignment_ok(sol: Seq<u8>) -> bool {
    &&& sol.len() == 81
    &&& forall|i: int| 0 <= i < 81 ==> 1 <= #[trigger] sol[i] <= 9
    &&& forall|i: int, j: int|
        0 <= i < 81 && 0 <= j < 81 && i != j && #[trigger] same_group(i, j) ==> sol[i] != sol[j]
}

/// The assignment picks, at every cell, a digit the grid still allows.
pub open spec fn assignment_within(sol: Seq<u8>, cells: Seq<Cell>) -> bool {
    forall|i: int| 0 <= i < 81 ==> (#[trigger] cells[i]).possible_spec(sol[i])
}

/// Some valid complete assignment is still open on this grid.
pub open spec fn solvable(cells: Seq<Cell>) -> bool {
    exists|sol: Seq<u8>| assignment_ok(sol) && #[trigger] assignment_within(sol, cells)
}

/// A grid that still admits a valid complete assignment passes the
/// structural validity check.
pub proof fn lemma_solution_needs_ok(sol: Seq<u8>, cells: Seq<Cell>)
    requires
        assignment_ok(sol),
        assignment_within(sol, cells),
        cells.len() == 81,
    ensures
        board_ok(cells),
{
    assert forall|i: int| 0 <= i < 81 implies (#[trigger] cells[i]).count_spec() >= 1 by {
        assert(cells[i].possible_spec(sol[i]));
        crate::cell::lemma_count_upto_pos(cells[i], sol[i], 10);
    }
    assert forall|i: int, j: int, d: u8|
        0 <= i < 81 && 0 <= j < 81 && i != j && #[trigger] same_group(i, j) && (
        #[trigger] cells[i].sole_spec(d)) implies !cells[j].sole_spec(d) by {
        if cells[j].sole_spec(d) {
            assert(cells[i].possible_spec(sol[i]));
            assert(cells[j].possible_spec(sol[j]));
            assert(sol[i] == d && sol[j] == d);
        }
    }
}

/// Committing the digit an assignment picks at one cell keeps the whole
/// assignment open.
pub proof fn lemma_play_keeps_solution(sol: Seq<u8>, cells: Seq<Cell>, i: int, d: u8)
    requires
        assignment_ok(sol),
        assignment_within(sol, cells),
        cells.len() == 81,
        0 <= i < 81,
        sol[i] == d,
    ensures
        assignment_within(sol, play_spec(cells, i, d)),
{
    let c2 = play_spec(cells, i, d);
    lemma_fixed_cell_possible(d);
    assert forall|j: int| 0 <= j < 81 implies (#[trigger] c2[j]).possible_spec(sol[j]) by {
        if j == i {
        } else if same_group(i, j) {
            assert(sol[j] != d);
            lemma_clear_cell_possible(cells[j], d);
        }
    }
}

/// A fully committed, structurally valid board that narrows `input_cells`
/// witnesses that `input_cells` still admits a valid complete assignment.
pub proof fn lemma_some_solvable(
    input_cells: Seq<Cell>,
    input_played: Seq<bool>,
    out: Board,
)
    requires
        out.wf(),
        all_played(out.played@),
        board_ok(out.cells@),
        refines(input_cells, input_played, out.cells@, out.played@),
        input_cells.len() == 81,
    ensures
        solvable(input_cells),
{
    let sol = Seq::new(81, |i: int| choose|d: u8| out.cells@[i].sole_spec(d));
    assert forall|i: int| 0 <= i < 81 implies out.cells@[i].sole_spec(#[trigger] sol[i]) by {
        assert(out.played@[i]);
        assert(out.cells@[i].count_spec() >= 1);
        lemma_count_facts(out.cells@[i]);
        let d = choose|d: u8| out.cells@[i].possible_spec(d);
        assert(out.cells@[i].sole_spec(d));
    }
    assert forall|i: int, j: int|
        0 <= i < 81 && 0 <= j < 81 && i != j && #[trigger] same_group(i, j) implies sol[i]
        != sol[j] by {
        if sol[i] == sol[j] {
            assert(out.cells@[i].sole_spec(sol[i]));
            assert(out.cells@[j].sole_spec(sol[i]));
        }
    }
    assert(assignment_ok(sol));
    assert forall|i: int| 0 <= i < 81 implies (#[trigger] input_cells[i]).possible_spec(
        sol[i],
    ) by {
        assert(out.cells@[i].possible_spec(sol[i]));
        assert(cell_leq(out.cells@[i], input_cells[i]));
    }
    assert(assignment_within(sol, input_cells));
}

proof fn lemma_group_digit_set(b: Board, g: int, m: int) -> (s: Set<int>)
    requires
        b.wf(),
        all_played(b.played@),
        board_ok(b.cells@),
        0 <= g < 27,
        0 <= m <= 9,
    ensures
        s.finite(),
        s.len() == m,
        forall|x: int|
            #[trigger] s.contains(x) ==> 1 <= x <= 9 && exists|k: int|
                0 <= k < m && b.cells@[group_cell(g, k)].sole_spec(x as u8),
    decreases m,
{
    broadcast use vstd::set::group_set_axioms;

    if m == 0 {
        Set::empty()
    } else {
        let s0 = lemma_group_digit_set(b, g, m - 1);
        lemma_group_cell_coords(g, m - 1);
        let i = group_cell(g, m - 1);
        assert(b.played@[i]);
        assert(b.cells@[i].count_spec() >= 1);
        lemma_count_facts(b.cells@[i]);
        let d = choose|d: u8| b.cells@[i].possible_spec(d);
        assert(b.cells@[i].sole_spec(d));
        if s0.contains(d as int) {
            let k2 = choose|k: int|
                0 <= k < m - 1 && b.cells@[group_cell(g, k)].sole_spec(((d as int) as u8));
            lemma_group_cell_same_group(g, k2, m - 1);
            lemma_group_cell_injective(g, k2, m - 1);
            lemma_group_cell_coords(g, k2);
            assert(b.cells@[group_cell(g, k2)].sole_spec(d));
            assert(false);
        }
        let s = s0.insert(d as int);
        assert(s.len() == m);
        assert forall|x: int| #[trigger] s.contains(x) implies 1 <= x <= 9 && exists|k: int|
            0 <= k < m && b.cells@[group_cell(g, k)].sole_spec(x as u8) by {
            if x == d as int {
                assert(b.cells@[group_cell(g, m - 1)].sole_spec(x as u8));
            } else {
                assert(s0.contains(x));
            }
        }
        s
    }
}

/// Group `g` has some cell committed to digit `d`.
pub open spec fn group_has_digit(b: Board, g: int, d: u8) -> bool {
    exists|k: int| 0 <= k < 9 && (#[trigger] b.cells@[group_cell(g, k)]).sole_spec(d)
}

/// In a fully committed, structurally valid board, every constraint group
/// (each row, each column, each 3×3 block) holds each digit `1..=9` in
/// exactly one of its nine cells.
pub proof fn lemma_solution_groups(b: Board)
    requires
        b.wf(),
        all_played(b.played@),
        board_ok(b.cells@),
    ensures
        forall|g: int, d: u8| 0 <= g < 27 && 1 <= d <= 9 ==> #[trigger] group_has_digit(b, g, d),
        forall|g: int, k1: int, k2: int, d: u8|
            #![trigger b.cells@[group_cell(g, k1)].sole_spec(d), b.cells@[group_cell(g, k2)].sole_spec(d)]
            0 <= g < 27 && 0 <= k1 < 9 && 0 <= k2 < 9 && k1 != k2 && b.cells@[group_cell(
                g,
                k1,
            )].sole_spec(d) ==> !b.cells@[group_cell(g, k2)].sole_spec(d),
{
    broadcast use vstd::set::group_set_axioms;

    assert forall|g: int, k1: int, k2: int, d: u8|
        0 <= g < 27 && 0 <= k1 < 9 && 0 <= k2 < 9 && k1 != k2 && b.cells@[group_cell(
            g,
            k1,
        )].sole_spec(d) implies !b.cells@[group_cell(g, k2)].sole_spec(d) by {
        lemma_group_cell_same_group(g, k1, k2);
        lemma_group_cell_injective(g, k1, k2);
        lemma_group_cell_coords(g, k1);
        lemma_group_cell_coords(g, k2);
    }
    assert forall|g: int, d: u8| 0 <= g < 27 && 1 <= d <= 9 implies #[trigger] group_has_digit(
        b,
        g,
        d,
    ) by {
        let s = lemma_group_digit_set(b, g, 9);
        let range = set_int_range(1, 10);
        lemma_int_range(1, 10);
        assert forall|x: int| #[trigger] s.contains(x) implies range.contains(x) by {}
        if !s.contains(d as int) {
            let smaller = range.remove(d as int);
            assert forall|x: int| #[trigger] s.contains(x) implies smaller.contains(x) by {}
            lemma_len_subset(s, smaller);
            assert(smaller.len() == 8);
            assert(false);
        }
        let k = choose|k: int|
            0 <= k < 9 && b.cells@[group_cell(g, k)].sole_spec(((d as int) as u8));
        assert(b.cells@[group_cell(g, k)].sole_spec(d));
    }
}

proof fn lemma_count_played_bounds(p: Seq<bool>, n: int)
    ensures
        0 <= count_played(p, n),
        n >= 0 ==> count_played(p, n) <= n,
    decreases n,
{
    if n > 0 {
        lemma_count_played_bounds(p, n - 1);
    }
}

/// Committing one further cell raises the played count by exactly one.
pub proof fn lemma_count_played_update(p: Seq<bool>, i: int, n: int)
    requires
        0 <= i < p.len(),
        n <= p.len(),
        !p[i],
    ensures
        count_played(p.update(i, true), n) == count_played(p, n) + (if 0 <= i < n {
            1int
        } else {
            0int
        }),
    decreases n,
{
    if n > 0 {
        lemma_count_played_update(p, i, n - 1);
    }
}

/// Pointwise inclusion of commitments bounds the played counts.
pub proof fn lemma_count_played_mono(p1: Seq<bool>, p2: Seq<bool>, n: int)
    requires
        forall|j: int| 0 <= j < n && #[trigger] p1[j] ==> p2[j],
    ensures
        count_played(p1, n) <= count_played(p2, n),
    decreases n,
{
    if n > 0 {
        lemma_count_played_mono(p1, p2, n - 1);
    }
}

pub proof fn lemma_count_played_le(p: Seq<bool>, n: int)
    ensures
        0 <= count_played(p, n),
        n >= 0 ==> count_played(p, n) <= n,
{
    lemma_count_played_bounds(p, n);
}

} // verus!

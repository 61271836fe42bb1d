use vstd::prelude::*;

verus! {

/// One of the nine 3×3 blocks, named by vertical position (top, middle,
/// bottom) and horizontal position (left, middle, right).
#[derive(Clone, Copy, Debug, PartialEq, Eq, Structural)]
pub enum SquareIdx {
    TL,
    TM,
    TR,
    ML,
    MM,
    MR,
    BL,
    BM,
    BR,
}

impl SquareIdx {
    pub open spec fn to_idx_spec(self) -> int {
        match self {
            SquareIdx::TL => 0,
            SquareIdx::TM => 1,
            SquareIdx::TR => 2,
            SquareIdx::ML => 3,
            SquareIdx::MM => 4,
            SquareIdx::MR => 5,
            SquareIdx::BL => 6,
            SquareIdx::BM => 7,
            SquareIdx::BR => 8,
        }
    }

    pub fn to_idx(self) -> (r: usize)
        ensures
            r as int == self.to_idx_spec(),
    {
        match self {
            SquareIdx::TL => 0,
            SquareIdx::TM => 1,
            SquareIdx::TR => 2,
            SquareIdx::ML => 3,
            SquareIdx::MM => 4,
            SquareIdx::MR => 5,
            SquareIdx::BL => 6,
            SquareIdx::BM => 7,
            SquareIdx::BR => 8,
        }
    }

    pub fn from_idx(idx: usize) -> (r: Self)
        requires
            idx < 9,
        ensures
            r.to_idx_spec() == idx as int,
    {
        match idx {
            0 => SquareIdx::TL,
            1 => SquareIdx::TM,
            2 => SquareIdx::TR,
            3 => SquareIdx::ML,
            4 => SquareIdx::MM,
            5 => SquareIdx::MR,
            6 => SquareIdx::BL,
            7 => SquareIdx::BM,
            _ => SquareIdx::BR,
        }
    }

    /// The coordinate of the top-left cell of this block.
    pub fn to_topleft_cell(self) -> (r: BoardIdx)
        ensures
            r.wf(),
            r.col == (self.to_idx_spec() % 3) * 3,
            r.row == (self.to_idx_spec() / 3) * 3,
    {
        match self {
            SquareIdx::TL => BoardIdx::new(0, 0),
            SquareIdx::TM => BoardIdx::new(3, 0),
            SquareIdx::TR => BoardIdx::new(6, 0),
            SquareIdx::ML => BoardIdx::new(0, 3),
            SquareIdx::MM => BoardIdx::new(3, 3),
            SquareIdx::MR => BoardIdx::new(6, 3),
            SquareIdx::BL => BoardIdx::new(0, 6),
            SquareIdx::BM => BoardIdx::new(3, 6),
            SquareIdx::BR => BoardIdx::new(6, 6),
        }
    }
}

/// A cell coordinate: a column and a row in `0..9`, with the derived linear
/// address `col + row * 9`.
#[derive(Clone, Copy, Debug, PartialEq, Eq, Structural, Hash)]
pub struct BoardIdx {
    pub col: usize,
    pub row: usize,
    pub idx: usize,
}

impl BoardIdx {
    pub open spec fn wf(self) -> bool {
        self.col < 9 && self.row < 9 && self.idx == self.col + self.row * 9
    }

    pub fn new(col: usize, row: usize) -> (r: Self)
        requires
            col < 9,
            row < 9,
        ensures
            r.col == col,
            r.row == row,
            r.idx == col + row * 9,
            r.wf(),
    {
        Self { col, row, idx: col + row * 9 }
    }

    /// The 3×3 block containing this coordinate.
    pub fn square(&self) -> (r: SquareIdx)
        requires
            self.wf(),
        ensures
            r.to_idx_spec() == (self.row as int / 3) * 3 + self.col as int / 3,
    {
        let bc = self.col / 3;
        let br = self.row / 3;
        if br == 0 {
            if bc == 0 {
                SquareIdx::TL
            } else if bc == 1 {
                SquareIdx::TM
            } else {
                SquareIdx::TR
            }
        } else if br == 1 {
            if bc == 0 {
                SquareIdx::ML
            } else if bc == 1 {
                SquareIdx::MM
            } else {
                SquareIdx::MR
            }
        } else {
            if bc == 0 {
                SquareIdx::BL
            } else if bc == 1 {
                SquareIdx::BM
            } else {
                SquareIdx::BR
            }
        }
    }
}

/// The row of the cell with linear address `i`.
pub open spec fn row_of(i: int) -> int {
    i / 9
}

/// The column of the cell with linear address `i`.
pub open spec fn col_of(i: int) -> int {
    i % 9
}

/// Two linear addresses share a row, a column, or a 3×3 block: membership in
/// one of the 27 constraint groups.
pub open spec fn same_group(i: int, j: int) -> bool {
    row_of(i) == row_of(j) || col_of(i) == col_of(j) || (row_of(i) / 3 == row_of(j) / 3 && col_of(
        i,
    ) / 3 == col_of(j) / 3)
}

/// The linear address of member `k` of constraint group `g`: the groups
/// `0..9` are the columns, `9..18` the rows, and `18..27` the blocks (each
/// block walked column by column).
pub open spec fn group_cell(g: int, k: int) -> int {
    if g < 9 {
        k * 9 + g
    } else if g < 18 {
        (g - 9) * 9 + k
    } else {
        ((g - 18) / 3 * 3 + k % 3) * 9 + ((g - 18) % 3 * 3 + k / 3)
    }
}

/// Every group member is a cell address, with the expected row and column.
pub proof fn lemma_group_cell_coords(g: int, k: int)
    requires
        0 <= g < 27,
        0 <= k < 9,
    ensures
        0 <= group_cell(g, k) < 81,
        g < 9 ==> row_of(group_cell(g, k)) == k && col_of(group_cell(g, k)) == g,
        9 <= g < 18 ==> row_of(group_cell(g, k)) == g - 9 && col_of(group_cell(g, k)) == k,
        18 <= g ==> row_of(group_cell(g, k)) == (g - 18) / 3 * 3 + k % 3 && col_of(group_cell(g, k))
            == (g - 18) % 3 * 3 + k / 3,
{
    let i = group_cell(g, k);
    if g < 9 {
        assert(row_of(i) == k && col_of(i) == g) by (nonlinear_arith)
            requires
                i == k * 9 + g && 0 <= g < 9 && 0 <= k < 9,
        ;
    } else if g < 18 {
        assert(row_of(i) == g - 9 && col_of(i) == k) by (nonlinear_arith)
            requires
                i == (g - 9) * 9 + k && 9 <= g < 18 && 0 <= k < 9,
        ;
    } else {
        let s = g - 18;
        let r = s / 3 * 3 + k % 3;
        let c = s % 3 * 3 + k / 3;
        assert(0 <= s < 9);
        assert(0 <= r < 9 && 0 <= c < 9) by (nonlinear_arith)
            requires
                r == s / 3 * 3 + k % 3 && c == s % 3 * 3 + k / 3 && 0 <= s < 9 && 0 <= k < 9,
        ;
        assert(row_of(i) == r && col_of(i) == c) by (nonlinear_arith)
            requires
                i == r * 9 + c && 0 <= r < 9 && 0 <= c < 9,
        ;
    }
}

/// Two members of one group are in the same constraint group.
pub proof fn lemma_group_cell_same_group(g: int, k1: int, k2: int)
    requires
        0 <= g < 27,
        0 <= k1 < 9,
        0 <= k2 < 9,
    ensures
        same_group(group_cell(g, k1), group_cell(g, k2)),
{
    lemma_group_cell_coords(g, k1);
    lemma_group_cell_coords(g, k2);
    if 18 <= g {
        let s = g - 18;
        let i = group_cell(g, k1);
        let j = group_cell(g, k2);
        assert(row_of(i) / 3 == s / 3 && col_of(i) / 3 == s % 3) by (nonlinear_arith)
            requires
                row_of(i) == s / 3 * 3 + k1 % 3 && col_of(i) == s % 3 * 3 + k1 / 3 && 0 <= s < 9
                    && 0 <= k1 < 9,
        ;
        assert(row_of(j) / 3 == s / 3 && col_of(j) / 3 == s % 3) by (nonlinear_arith)
            requires
                row_of(j) == s / 3 * 3 + k2 % 3 && col_of(j) == s % 3 * 3 + k2 / 3 && 0 <= s < 9
                    && 0 <= k2 < 9,
        ;
    }
}

/// Distinct positions within one group name distinct cells.
pub proof fn lemma_group_cell_injective(g: int, k1: int, k2: int)
    requires
        0 <= g < 27,
        0 <= k1 < 9,
        0 <= k2 < 9,
        k1 != k2,
    ensures
        group_cell(g, k1) != group_cell(g, k2),
{
    lemma_group_cell_coords(g, k1);
    lemma_group_cell_coords(g, k2);
    if 18 <= g {
        if group_cell(g, k1) == group_cell(g, k2) {
            assert(k1 % 3 == k2 % 3 && k1 / 3 == k2 / 3);
            assert(k1 == k1 / 3 * 3 + k1 % 3 && k2 == k2 / 3 * 3 + k2 % 3) by (nonlinear_arith)
                requires
                    0 <= k1 < 9 && 0 <= k2 < 9,
            ;
        }
    } else {
        if group_cell(g, k1) == group_cell(g, k2) {
            assert(row_of(group_cell(g, k1)) != row_of(group_cell(g, k2)) || col_of(
                group_cell(g, k1),
            ) != col_of(group_cell(g, k2)));
        }
    }
}

/// Every cell address belongs to its column group, its row group, and its
/// block group, at the stated positions.
pub proof fn lemma_cell_in_groups(i: int)
    requires
        0 <= i < 81,
    ensures
        0 <= col_of(i) < 9,
        0 <= row_of(i) < 9,
        group_cell(col_of(i), row_of(i)) == i,
        group_cell(9 + row_of(i), col_of(i)) == i,
        0 <= 18 + row_of(i) / 3 * 3 + col_of(i) / 3 < 27,
        0 <= col_of(i) % 3 * 3 + row_of(i) % 3 < 9,
        group_cell(18 + row_of(i) / 3 * 3 + col_of(i) / 3, col_of(i) % 3 * 3 + row_of(i) % 3) == i,
{
    let r = row_of(i);
    let c = col_of(i);
    assert(0 <= c < 9 && 0 <= r < 9 && i == r * 9 + c) by (nonlinear_arith)
        requires
            r == i / 9 && c == i % 9 && 0 <= i < 81,
    ;
    let s = r / 3 * 3 + c / 3;
    let k = c % 3 * 3 + r % 3;
    assert(0 <= s < 9 && 0 <= k < 9 && s / 3 == r / 3 && s % 3 == c / 3 && k / 3 == c % 3 && k % 3
        == r % 3) by (nonlinear_arith)
        requires
            s == r / 3 * 3 + c / 3 && k == c % 3 * 3 + r % 3 && 0 <= r < 9 && 0 <= c < 9,
    ;
    assert(s / 3 * 3 + k % 3 == r && s % 3 * 3 + k / 3 == c) by (nonlinear_arith)
        requires
            s / 3 == r / 3 && s % 3 == c / 3 && k / 3 == c % 3 && k % 3 == r % 3 && 0 <= r < 9 && 0
                <= c < 9,
    ;
}

/// Two distinct cells of one constraint group sit at two distinct positions
/// of one of the 27 groups.
pub proof fn lemma_same_group_witness(i: int, j: int)
    requires
        0 <= i < 81,
        0 <= j < 81,
        i != j,
        same_group(i, j),
    ensures
        exists|g: int, k1: int, k2: int|
            0 <= g < 27 && 0 <= k1 < 9 && 0 <= k2 < 9 && k1 != k2 && group_cell(g, k1) == i
                && group_cell(g, k2) == j,
{
    lemma_cell_in_groups(i);
    lemma_cell_in_groups(j);
    if col_of(i) == col_of(j) {
        let g = col_of(i);
        assert(row_of(i) != row_of(j));
        assert(group_cell(g, row_of(i)) == i && group_cell(g, row_of(j)) == j);
    } else if row_of(i) == row_of(j) {
        let g = 9 + row_of(i);
        assert(group_cell(g, col_of(i)) == i && group_cell(g, col_of(j)) == j);
    } else {
        let g = 18 + row_of(i) / 3 * 3 + col_of(i) / 3;
        let k1 = col_of(i) % 3 * 3 + row_of(i) % 3;
        let k2 = col_of(j) % 3 * 3 + row_of(j) % 3;
        assert(row_of(i) / 3 == row_of(j) / 3 && col_of(i) / 3 == col_of(j) / 3);
        assert(group_cell(g, k1) == i && group_cell(g, k2) == j);
        if k1 == k2 {
            assert(col_of(i) % 3 == col_of(j) % 3 && row_of(i) % 3 == row_of(j) % 3)
                by (nonlinear_arith)
                requires
                    k1 == col_of(i) % 3 * 3 + row_of(i) % 3 && k2 == col_of(j) % 3 * 3 + row_of(j)
                        % 3 && k1 == k2 && 0 <= col_of(i) % 3 < 3 && 0 <= col_of(j) % 3 < 3 && 0
                        <= row_of(i) % 3 < 3 && 0 <= row_of(j) % 3 < 3,
            ;
            assert(col_of(i) == col_of(i) / 3 * 3 + col_of(i) % 3) by (nonlinear_arith);
            assert(col_of(j) == col_of(j) / 3 * 3 + col_of(j) % 3) by (nonlinear_arith);
            assert(row_of(i) == row_of(i) / 3 * 3 + row_of(i) % 3) by (nonlinear_arith);
            assert(row_of(j) == row_of(j) / 3 * 3 + row_of(j) % 3) by (nonlinear_arith);
            assert(i == row_of(i) * 9 + col_of(i) && j == row_of(j) * 9 + col_of(j))
                by (nonlinear_arith)
                requires
                    0 <= i < 81 && 0 <= j < 81 && row_of(i) == i / 9 && col_of(i) == i % 9 && row_of(
                        j,
                    ) == j / 9 && col_of(j) == j % 9,
            ;
            assert(false);
        }
    }
}

} // verus!

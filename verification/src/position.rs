//! Positions in the grid and the 27 groups of nine squares: rows, columns
//! and regions.

use vstd::prelude::*;

verus! {

/// A square by row and column, both from 0 to 8.
#[derive(Clone, Copy, Debug, PartialEq, Eq)]
pub struct Position {
    pub row: usize,
    pub col: usize,
}

/// The row of the square with linear index `i`.
pub open spec fn row_of(i: int) -> int {
    i / 9
}

/// The column of the square with linear index `i`.
pub open spec fn col_of(i: int) -> int {
    i % 9
}

/// The region of the square with linear index `i`.
pub open spec fn region_of(i: int) -> int {
    (i / 27) * 3 + (i % 9) / 3
}

/// Square `i` of row `r`.
pub open spec fn row_cell(r: int, i: int) -> int {
    9 * r + i
}

/// Square `i` of column `c`.
pub open spec fn col_cell(c: int, i: int) -> int {
    9 * i + c
}

/// Square `k` of region `b`.
pub open spec fn region_cell(b: int, k: int) -> int {
    9 * (3 * (b / 3) + k / 3) + (3 * (b % 3) + k % 3)
}

/// Square `k` of group `u`: groups 0 to 8 are the rows, 9 to 17 the columns,
/// 18 to 26 the regions.
pub open spec fn unit_cell(u: int, k: int) -> int {
    if u < 9 {
        row_cell(u, k)
    } else if u < 18 {
        col_cell(u - 9, k)
    } else {
        region_cell(u - 18, k)
    }
}

/// Whether two different squares share a row, a column or a region.
pub open spec fn peers(i: int, j: int) -> bool {
    i != j && (row_of(i) == row_of(j) || col_of(i) == col_of(j) || region_of(i) == region_of(j))
}

/// The group of kind `kind` that holds square `idx`: its column for 0, its row
/// for 1, its region for 2.
pub open spec fn home_unit(idx: int, kind: int) -> int {
    if kind == 0 {
        9 + col_of(idx)
    } else if kind == 1 {
        row_of(idx)
    } else {
        18 + region_of(idx)
    }
}

/// The squares that see square `idx`, as 27 slots: its column, then its row,
/// then its region, each in group order. The square itself fills three of them.
pub open spec fn peer_slot(idx: int, s: int) -> int {
    unit_cell(home_unit(idx, s / 9), s % 9)
}

/// The row, column and region of the square at row `r`, column `c`.
pub proof fn lemma_compose(r: int, c: int)
    requires
        0 <= r < 9,
        0 <= c < 9,
    ensures
        0 <= 9 * r + c < 81,
        row_of(9 * r + c) == r,
        col_of(9 * r + c) == c,
        region_of(9 * r + c) == 3 * (r / 3) + c / 3,
        0 <= region_of(9 * r + c) < 9,
{
    let i = 9 * r + c;
    assert(i / 9 == r && i % 9 == c) by (nonlinear_arith)
        requires
            i == 9 * r + c,
            0 <= c < 9,
    ;
    let b = r / 3;
    let m = r % 3;
    assert(i / 27 == b) by (nonlinear_arith)
        requires
            i == 27 * b + (9 * m + c),
            0 <= 9 * m + c < 27,
    ;
}

/// Every square is the one at its row and column.
pub proof fn lemma_decompose(i: int)
    requires
        0 <= i < 81,
    ensures
        0 <= row_of(i) < 9,
        0 <= col_of(i) < 9,
        0 <= region_of(i) < 9,
        i == 9 * row_of(i) + col_of(i),
        region_of(i) == 3 * (row_of(i) / 3) + col_of(i) / 3,
{
    lemma_compose(i / 9, i % 9);
}

/// Square `k` of region `b` stands at row `3 * (b / 3) + k / 3` and column
/// `3 * (b % 3) + k % 3`, and lies in region `b`.
pub proof fn lemma_region_cell(b: int, k: int)
    requires
        0 <= b < 9,
        0 <= k < 9,
    ensures
        0 <= region_cell(b, k) < 81,
        row_of(region_cell(b, k)) == 3 * (b / 3) + k / 3,
        col_of(region_cell(b, k)) == 3 * (b % 3) + k % 3,
        region_of(region_cell(b, k)) == b,
{
    let r = 3 * (b / 3) + k / 3;
    let c = 3 * (b % 3) + k % 3;
    lemma_compose(r, c);
    assert(r / 3 == b / 3) by (nonlinear_arith)
        requires
            r == 3 * (b / 3) + k / 3,
            0 <= k / 3 < 3,
    ;
    assert(c / 3 == b % 3) by (nonlinear_arith)
        requires
            c == 3 * (b % 3) + k % 3,
            0 <= k % 3 < 3,
    ;
}

/// Every square of a group lies in the grid, in the row, column or region that the
/// group stands for; two squares of a group are peers.
pub proof fn lemma_unit_cells(u: int, j: int, k: int)
    requires
        0 <= u < 27,
        0 <= j < 9,
        0 <= k < 9,
    ensures
        0 <= unit_cell(u, j) < 81,
        j != k ==> peers(unit_cell(u, j), unit_cell(u, k)),
        u < 9 ==> row_of(unit_cell(u, j)) == u && col_of(unit_cell(u, j)) == j,
        9 <= u < 18 ==> col_of(unit_cell(u, j)) == u - 9 && row_of(unit_cell(u, j)) == j,
        18 <= u ==> region_of(unit_cell(u, j)) == u - 18,
{
    if u < 9 {
        lemma_compose(u, j);
        lemma_compose(u, k);
    } else if u < 18 {
        lemma_compose(j, u - 9);
        lemma_compose(k, u - 9);
    } else {
        lemma_region_cell(u - 18, j);
        lemma_region_cell(u - 18, k);
    }
}

/// Each slot of a square is the square itself or one of its peers.
pub proof fn lemma_slot_sees(idx: int, s: int)
    requires
        0 <= idx < 81,
        0 <= s < 27,
    ensures
        0 <= peer_slot(idx, s) < 81,
        peer_slot(idx, s) == idx || peers(idx, peer_slot(idx, s)),
{
    lemma_decompose(idx);
    let u = home_unit(idx, s / 9);
    lemma_unit_cells(u, s % 9, s % 9);
}

/// The slot of `idx` at which its peer `j` stands.
pub open spec fn slot_of(idx: int, j: int) -> int {
    if col_of(idx) == col_of(j) {
        row_of(j)
    } else if row_of(idx) == row_of(j) {
        9 + col_of(j)
    } else {
        18 + (row_of(j) % 3) * 3 + col_of(j) % 3
    }
}

/// Every peer of a square stands at one of its slots.
pub proof fn lemma_slots_cover(idx: int, j: int)
    requires
        0 <= idx < 81,
        0 <= j < 81,
        peers(idx, j),
    ensures
        0 <= slot_of(idx, j) < 27,
        peer_slot(idx, slot_of(idx, j)) == j,
{
    lemma_decompose(idx);
    lemma_decompose(j);
    let s = slot_of(idx, j);
    if col_of(idx) == col_of(j) {
        assert(s / 9 == 0 && s % 9 == row_of(j));
    } else if row_of(idx) == row_of(j) {
        assert(s / 9 == 1 && s % 9 == col_of(j));
    } else {
        let k = (row_of(j) % 3) * 3 + col_of(j) % 3;
        assert(s / 9 == 2 && s % 9 == k);
        assert(k / 3 == row_of(j) % 3 && k % 3 == col_of(j) % 3);
        let b = region_of(j);
        assert(b / 3 == row_of(j) / 3 && b % 3 == col_of(j) / 3);
    }
}

impl Position {
    /// Whether row and column lie in the grid.
    pub open spec fn in_grid(&self) -> bool {
        self.row < 9 && self.col < 9
    }

    /// The linear index, `row * 9 + col`.
    pub open spec fn index(&self) -> int {
        self.row * 9 + self.col
    }

    /// The position at row `row` and column `col`.
    pub fn new(row: usize, col: usize) -> (p: Position)
        ensures
            p.row == row,
            p.col == col,
    {
        Position { row, col }
    }

    /// The region of the square, and its place within that region.
    pub fn region(&self) -> (r: (usize, usize))
        requires
            self.in_grid(),
        ensures
            r.0 == region_of(self.index()),
            r.0 < 9,
            r.1 < 9,
            r.1 == (self.row % 3) * 3 + self.col % 3,
            region_cell(r.0 as int, r.1 as int) == self.index(),
    {
        proof {
            lemma_compose(self.row as int, self.col as int);
            let b = 3 * (self.row as int / 3) + self.col as int / 3;
            let k = (self.row as int % 3) * 3 + self.col as int % 3;
            assert(b / 3 == self.row as int / 3 && b % 3 == self.col as int / 3);
            assert(k / 3 == self.row as int % 3 && k % 3 == self.col as int % 3);
        }
        (self.row / 3 * 3 + self.col / 3, (self.row % 3) * 3 + self.col % 3)
    }

    /// The square with linear index `index`.
    pub fn from_index(index: usize) -> (p: Position)
        ensures
            p.row == index / 9,
            p.col == index % 9,
            index < 81 ==> p.in_grid() && p.index() == index,
    {
        proof {
            if index < 81 {
                lemma_decompose(index as int);
            }
        }
        Position { col: index % 9, row: index / 9 }
    }

    /// The linear index of the square.
    pub fn get_index(&self) -> (i: usize)
        requires
            self.in_grid(),
        ensures
            i == self.index(),
            i < 81,
            row_of(i as int) == self.row,
            col_of(i as int) == self.col,
    {
        proof {
            lemma_compose(self.row as int, self.col as int);
        }
        self.row * 9 + self.col
    }
}

/// Square `k` of group `u`.
pub fn group_cell(u: usize, k: usize) -> (i: usize)
    requires
        u < 27,
        k < 9,
    ensures
        i == unit_cell(u as int, k as int),
        i < 81,
{
    proof {
        lemma_unit_cells(u as int, k as int, k as int);
    }
    if u < 9 {
        9 * u + k
    } else if u < 18 {
        9 * k + (u - 9)
    } else {
        let b: usize = u - 18;
        9 * (3 * (b / 3) + k / 3) + (3 * (b % 3) + k % 3)
    }
}

/// The square at slot `s` of square `idx`.
pub fn slot_cell(idx: usize, s: usize) -> (j: usize)
    requires
        idx < 81,
        s < 27,
    ensures
        j == peer_slot(idx as int, s as int),
        j < 81,
        j == idx || peers(idx as int, j as int),
{
    proof {
        lemma_slot_sees(idx as int, s as int);
        lemma_decompose(idx as int);
    }
    let kind: usize = s / 9;
    let u: usize = if kind == 0 {
        9 + idx % 9
    } else if kind == 1 {
        idx / 9
    } else {
        18 + (idx / 27) * 3 + (idx % 9) / 3
    };
    group_cell(u, s % 9)
}

/// The nine linear indices of group `u`, in group order.
pub fn group_cells(u: usize) -> (g: [usize; 9])
    requires
        u < 27,
    ensures
        forall|k: int| 0 <= k < 9 ==> #[trigger] g[k] == unit_cell(u as int, k),
{
    let mut g: [usize; 9] = [0; 9];
    let mut k: usize = 0;
    while k < 9
        invariant
            u < 27,
            k <= 9,
            forall|j: int| 0 <= j < k ==> #[trigger] g[j] == unit_cell(u as int, j),
        decreases 9 - k,
    {
        g[k] = group_cell(u, k);
        k = k + 1;
    }
    g
}

/// The three tables of groups: rows, columns, regions, each nine lists of the nine
/// linear indices of a group.
pub fn group_fill() -> (t: [[[usize; 9]; 9]; 3])
    ensures
        forall|g: int, k: int|
            0 <= g < 9 && 0 <= k < 9 ==> {
                &&& (#[trigger] t[0][g][k]) == row_cell(g, k)
                &&& t[1][g][k] == col_cell(g, k)
                &&& t[2][g][k] == region_cell(g, k)
            },
{
    let mut rows: [[usize; 9]; 9] = [[0; 9]; 9];
    let mut cols: [[usize; 9]; 9] = [[0; 9]; 9];
    let mut regions: [[usize; 9]; 9] = [[0; 9]; 9];
    let mut i: usize = 0;
    while i < 9
        invariant
            i <= 9,
            forall|g: int, k: int|
                0 <= g < i && 0 <= k < 9 ==> (#[trigger] rows[g][k]) == unit_cell(g, k),
            forall|g: int, k: int|
                0 <= g < i && 0 <= k < 9 ==> (#[trigger] cols[g][k]) == unit_cell(9 + g, k),
            forall|g: int, k: int|
                0 <= g < i && 0 <= k < 9 ==> (#[trigger] regions[g][k]) == unit_cell(18 + g, k),
        decreases 9 - i,
    {
        rows[i] = group_cells(i);
        cols[i] = group_cells(9 + i);
        regions[i] = group_cells(18 + i);
        i = i + 1;
    }
    let t: [[[usize; 9]; 9]; 3] = [rows, cols, regions];
    assert forall|g: int, k: int| 0 <= g < 9 && 0 <= k < 9 implies {
        &&& (#[trigger] t[0][g][k]) == row_cell(g, k)
        &&& t[1][g][k] == col_cell(g, k)
        &&& t[2][g][k] == region_cell(g, k)
    } by {
        assert(rows[g][k] == unit_cell(g, k));
        assert(cols[g][k] == unit_cell(9 + g, k));
        assert(regions[g][k] == unit_cell(18 + g, k));
    }
    t
}

} // verus!

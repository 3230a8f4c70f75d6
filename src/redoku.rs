//! The 9x9 board and its row, column and block indices.
use vstd::prelude::*;

use crate::value::{all_values, CellValue, CellValueSet};

verus! {

/// A grid of 81 cells, read row by row: cell `(x, y)` stands at `9 * y + x`.
pub type Grid = Seq<Option<CellValue>>;

pub open spec fn in_range(x: int, y: int) -> bool {
    0 <= x < 9 && 0 <= y < 9
}

/// The content of cell `(x, y)`: column `x`, row `y`.
pub open spec fn at(g: Grid, x: int, y: int) -> Option<CellValue> {
    g[9 * y + x]
}

/// The block of cell `(x, y)`: `bx + 3 * by` for block coordinates `(bx, by) = (x / 3, y / 3)`.
pub open spec fn block_of(x: int, y: int) -> int {
    3 * (y / 3) + x / 3
}

/// The values present in row `y`.
pub open spec fn row_set(g: Grid, y: int) -> Set<CellValue> {
    Set::new(|v: CellValue| exists|x: int| 0 <= x < 9 && #[trigger] at(g, x, y) == Some(v))
}

/// The values present in column `x`.
pub open spec fn column_set(g: Grid, x: int) -> Set<CellValue> {
    Set::new(|v: CellValue| exists|y: int| 0 <= y < 9 && #[trigger] at(g, x, y) == Some(v))
}

/// The values present in block `b`.
pub open spec fn block_set(g: Grid, b: int) -> Set<CellValue> {
    Set::new(
        |v: CellValue|
            exists|x: int, y: int|
                in_range(x, y) && block_of(x, y) == b && #[trigger] at(g, x, y) == Some(v),
    )
}

/// Two cells share a row, a column or a block.
pub open spec fn shares_unit(x1: int, y1: int, x2: int, y2: int) -> bool {
    x1 == x2 || y1 == y2 || block_of(x1, y1) == block_of(x2, y2)
}

/// No value occurs twice in a row, a column or a block.
pub open spec fn unique(g: Grid) -> bool {
    forall|x1: int, y1: int, x2: int, y2: int|
        in_range(x1, y1) && in_range(x2, y2) && (x1 != x2 || y1 != y2) && shares_unit(x1, y1, x2, y2)
            && (#[trigger] at(g, x1, y1)) is Some ==> at(g, x1, y1) != #[trigger] at(g, x2, y2)
}

/// A grid of 81 cells that obeys the Sudoku rule.
pub open spec fn valid_grid(g: Grid) -> bool {
    g.len() == 81 && unique(g)
}

/// `v` already occurs in the row, the column or the block of `(x, y)`.
pub open spec fn conflicts(g: Grid, x: int, y: int, v: CellValue) -> bool {
    row_set(g, y).contains(v) || column_set(g, x).contains(v) || block_set(g, block_of(x, y)).contains(v)
}

/// The values excluded at `(x, y)`: those of its row, column and block.
pub open spec fn excluded(g: Grid, x: int, y: int) -> Set<CellValue> {
    row_set(g, y).union(column_set(g, x)).union(block_set(g, block_of(x, y)))
}

/// The values that may still go at `(x, y)`.
pub open spec fn candidates(g: Grid, x: int, y: int) -> Set<CellValue> {
    all_values().difference(excluded(g, x, y))
}

/// Number of empty cells among the first `n` of `g`.
pub open spec fn empty_count(g: Grid, n: int) -> nat
    decreases n,
{
    if n <= 0 {
        0
    } else {
        empty_count(g, n - 1) + if g[n - 1] is None {
            1nat
        } else {
            0nat
        }
    }
}

/// Number of empty cells of the board.
pub open spec fn empty_cells_of(g: Grid) -> nat {
    empty_count(g, 81)
}

/// Number of filled cells among the first `n` of row `y`.
pub open spec fn row_filled(g: Grid, y: int, n: int) -> nat
    decreases n,
{
    if n <= 0 {
        0
    } else {
        row_filled(g, y, n - 1) + if at(g, n - 1, y) is Some {
            1nat
        } else {
            0nat
        }
    }
}

/// Number of filled cells among the first `n` of column `x`.
pub open spec fn column_filled(g: Grid, x: int, n: int) -> nat
    decreases n,
{
    if n <= 0 {
        0
    } else {
        column_filled(g, x, n - 1) + if at(g, x, n - 1) is Some {
            1nat
        } else {
            0nat
        }
    }
}

proof fn lemma_index(x1: int, y1: int, x2: int, y2: int)
    requires
        in_range(x1, y1),
        in_range(x2, y2),
    ensures
        (9 * y1 + x1 == 9 * y2 + x2) == (x1 == x2 && y1 == y2),
        0 <= 9 * y1 + x1 < 81,
{
}

proof fn lemma_block_range(x: int, y: int)
    requires
        in_range(x, y),
    ensures
        0 <= block_of(x, y) < 9,
{
}

/// Clearing a filled cell keeps the grid valid and takes its value out of its row, column and block only.
proof fn lemma_clear(g: Grid, x: int, y: int, w: CellValue)
    requires
        valid_grid(g),
        in_range(x, y),
        at(g, x, y) == Some(w),
    ensures
        ({
            let h = g.update(9 * y + x, None);
            &&& valid_grid(h)
            &&& row_set(h, y) == row_set(g, y).remove(w)
            &&& column_set(h, x) == column_set(g, x).remove(w)
            &&& block_set(h, block_of(x, y)) == block_set(g, block_of(x, y)).remove(w)
            &&& forall|r: int| 0 <= r < 9 && r != y ==> #[trigger] row_set(h, r) == row_set(g, r)
            &&& forall|c: int| 0 <= c < 9 && c != x ==> #[trigger] column_set(h, c) == column_set(g, c)
            &&& forall|b: int| 0 <= b < 9 && b != block_of(x, y) ==> #[trigger] block_set(h, b) == block_set(g, b)
        }),
{
    let h = g.update(9 * y + x, None);
    assert forall|x2: int, y2: int| in_range(x2, y2) implies #[trigger] at(h, x2, y2) == if x2 == x && y2
        == y {
        None
    } else {
        at(g, x2, y2)
    } by {
        lemma_index(x, y, x2, y2);
    }
    assert forall|u: CellValue| #[trigger] row_set(h, y).contains(u) == row_set(g, y).remove(w).contains(u) by {
        if row_set(h, y).contains(u) {
            let x2 = choose|x2: int| 0 <= x2 < 9 && #[trigger] at(h, x2, y) == Some(u);
            assert(at(g, x2, y) == Some(u));
        }
        if row_set(g, y).remove(w).contains(u) {
            let x2 = choose|x2: int| 0 <= x2 < 9 && #[trigger] at(g, x2, y) == Some(u);
            assert(at(h, x2, y) == Some(u));
        }
    }
    assert forall|u: CellValue| #[trigger] column_set(h, x).contains(u) == column_set(g, x).remove(w).contains(u) by {
        if column_set(h, x).contains(u) {
            let y2 = choose|y2: int| 0 <= y2 < 9 && #[trigger] at(h, x, y2) == Some(u);
            assert(at(g, x, y2) == Some(u));
        }
        if column_set(g, x).remove(w).contains(u) {
            let y2 = choose|y2: int| 0 <= y2 < 9 && #[trigger] at(g, x, y2) == Some(u);
            assert(at(h, x, y2) == Some(u));
        }
    }
    assert(row_set(h, y) =~= row_set(g, y).remove(w));
    assert(column_set(h, x) =~= column_set(g, x).remove(w));
    assert forall|u: CellValue| #[trigger] block_set(h, block_of(x, y)).contains(u) == block_set(g, block_of(x, y)).remove(w).contains(u) by {
        if block_set(h, block_of(x, y)).contains(u) {
            let (x2, y2) = choose|x2: int, y2: int| in_range(x2, y2) && block_of(x2, y2) == block_of(x, y) && #[trigger] at(h, x2, y2) == Some(u);
            assert(at(g, x2, y2) == Some(u));
        }
        if block_set(g, block_of(x, y)).remove(w).contains(u) {
            let (x2, y2) = choose|x2: int, y2: int| in_range(x2, y2) && block_of(x2, y2) == block_of(x, y) && #[trigger] at(g, x2, y2) == Some(u);
            assert(at(h, x2, y2) == Some(u));
        }
    }
    assert(block_set(h, block_of(x, y)) =~= block_set(g, block_of(x, y)).remove(w));
    lemma_other_units(g, h, x, y);
}

/// Changing cell `(x, y)` leaves the other rows, columns and blocks as they were.
proof fn lemma_other_units(g: Grid, h: Grid, x: int, y: int)
    requires
        g.len() == 81,
        in_range(x, y),
        forall|x2: int, y2: int| in_range(x2, y2) && (x2 != x || y2 != y) ==> #[trigger] at(h, x2, y2) == at(g, x2, y2),
    ensures
        forall|r: int| 0 <= r < 9 && r != y ==> #[trigger] row_set(h, r) == row_set(g, r),
        forall|c: int| 0 <= c < 9 && c != x ==> #[trigger] column_set(h, c) == column_set(g, c),
        forall|b: int| 0 <= b < 9 && b != block_of(x, y) ==> #[trigger] block_set(h, b) == block_set(g, b),
{
    assert forall|r: int| 0 <= r < 9 && r != y implies #[trigger] row_set(h, r) == row_set(g, r) by {
        assert forall|u: CellValue| #[trigger] row_set(h, r).contains(u) == row_set(g, r).contains(u) by {
            if row_set(h, r).contains(u) {
                let x2 = choose|x2: int| 0 <= x2 < 9 && #[trigger] at(h, x2, r) == Some(u);
                assert(at(g, x2, r) == Some(u));
            }
            if row_set(g, r).contains(u) {
                let x2 = choose|x2: int| 0 <= x2 < 9 && #[trigger] at(g, x2, r) == Some(u);
                assert(at(h, x2, r) == Some(u));
            }
        }
        assert(row_set(h, r) =~= row_set(g, r));
    }
    assert forall|c: int| 0 <= c < 9 && c != x implies #[trigger] column_set(h, c) == column_set(g, c) by {
        assert forall|u: CellValue| #[trigger] column_set(h, c).contains(u) == column_set(g, c).contains(u) by {
            if column_set(h, c).contains(u) {
                let y2 = choose|y2: int| 0 <= y2 < 9 && #[trigger] at(h, c, y2) == Some(u);
                assert(at(g, c, y2) == Some(u));
            }
            if column_set(g, c).contains(u) {
                let y2 = choose|y2: int| 0 <= y2 < 9 && #[trigger] at(g, c, y2) == Some(u);
                assert(at(h, c, y2) == Some(u));
            }
        }
        assert(column_set(h, c) =~= column_set(g, c));
    }
    assert forall|b: int| 0 <= b < 9 && b != block_of(x, y) implies #[trigger] block_set(h, b) == block_set(g, b) by {
        assert forall|u: CellValue| #[trigger] block_set(h, b).contains(u) == block_set(g, b).contains(u) by {
            if block_set(h, b).contains(u) {
                let (x2, y2) = choose|x2: int, y2: int| in_range(x2, y2) && block_of(x2, y2) == b && #[trigger] at(h, x2, y2) == Some(u);
                assert(at(g, x2, y2) == Some(u));
            }
            if block_set(g, b).contains(u) {
                let (x2, y2) = choose|x2: int, y2: int| in_range(x2, y2) && block_of(x2, y2) == b && #[trigger] at(g, x2, y2) == Some(u);
                assert(at(h, x2, y2) == Some(u));
            }
        }
        assert(block_set(h, b) =~= block_set(g, b));
    }
}

/// Filling an empty cell with a value that is not excluded there keeps the grid valid and adds
/// the value to its row, column and block only.
proof fn lemma_fill(g: Grid, x: int, y: int, v: CellValue)
    requires
        valid_grid(g),
        in_range(x, y),
        at(g, x, y) is None,
        !conflicts(g, x, y, v),
    ensures
        ({
            let h = g.update(9 * y + x, Some(v));
            &&& valid_grid(h)
            &&& row_set(h, y) == row_set(g, y).insert(v)
            &&& column_set(h, x) == column_set(g, x).insert(v)
            &&& block_set(h, block_of(x, y)) == block_set(g, block_of(x, y)).insert(v)
            &&& forall|r: int| 0 <= r < 9 && r != y ==> #[trigger] row_set(h, r) == row_set(g, r)
            &&& forall|c: int| 0 <= c < 9 && c != x ==> #[trigger] column_set(h, c) == column_set(g, c)
            &&& forall|b: int| 0 <= b < 9 && b != block_of(x, y) ==> #[trigger] block_set(h, b) == block_set(g, b)
        }),
{
    let h = g.update(9 * y + x, Some(v));
    assert forall|x2: int, y2: int| in_range(x2, y2) implies #[trigger] at(h, x2, y2) == if x2 == x && y2
        == y {
        Some(v)
    } else {
        at(g, x2, y2)
    } by {
        lemma_index(x, y, x2, y2);
    }
    assert forall|u: CellValue| #[trigger] row_set(h, y).contains(u) == row_set(g, y).insert(v).contains(u) by {
        if row_set(h, y).contains(u) && u != v {
            let x2 = choose|x2: int| 0 <= x2 < 9 && #[trigger] at(h, x2, y) == Some(u);
            assert(at(g, x2, y) == Some(u));
        }
        if row_set(g, y).contains(u) {
            let x2 = choose|x2: int| 0 <= x2 < 9 && #[trigger] at(g, x2, y) == Some(u);
            assert(at(h, x2, y) == Some(u));
        }
        assert(at(h, x, y) == Some(v));
    }
    assert forall|u: CellValue| #[trigger] column_set(h, x).contains(u) == column_set(g, x).insert(v).contains(u) by {
        if column_set(h, x).contains(u) && u != v {
            let y2 = choose|y2: int| 0 <= y2 < 9 && #[trigger] at(h, x, y2) == Some(u);
            assert(at(g, x, y2) == Some(u));
        }
        if column_set(g, x).contains(u) {
            let y2 = choose|y2: int| 0 <= y2 < 9 && #[trigger] at(g, x, y2) == Some(u);
            assert(at(h, x, y2) == Some(u));
        }
        assert(at(h, x, y) == Some(v));
    }
    assert(row_set(h, y) =~= row_set(g, y).insert(v)) by {
        assert(at(h, x, y) == Some(v));
    }
    assert(column_set(h, x) =~= column_set(g, x).insert(v)) by {
        assert(at(h, x, y) == Some(v));
    }
    assert forall|u: CellValue| #[trigger] block_set(h, block_of(x, y)).contains(u) == block_set(g, block_of(x, y)).insert(v).contains(u) by {
        if block_set(h, block_of(x, y)).contains(u) && u != v {
            let (x2, y2) = choose|x2: int, y2: int| in_range(x2, y2) && block_of(x2, y2) == block_of(x, y) && #[trigger] at(h, x2, y2) == Some(u);
            assert(at(g, x2, y2) == Some(u));
        }
        if block_set(g, block_of(x, y)).contains(u) {
            let (x2, y2) = choose|x2: int, y2: int| in_range(x2, y2) && block_of(x2, y2) == block_of(x, y) && #[trigger] at(g, x2, y2) == Some(u);
            assert(at(h, x2, y2) == Some(u));
        }
        assert(at(h, x, y) == Some(v));
    }
    assert(block_set(h, block_of(x, y)) =~= block_set(g, block_of(x, y)).insert(v)) by {
        assert(at(h, x, y) == Some(v));
    }
    lemma_other_units(g, h, x, y);
    assert forall|x1: int, y1: int, x2: int, y2: int|
        in_range(x1, y1) && in_range(x2, y2) && (x1 != x2 || y1 != y2) && shares_unit(x1, y1, x2, y2)
            && (#[trigger] at(h, x1, y1)) is Some implies at(h, x1, y1) != #[trigger] at(h, x2, y2) by {
        if x1 == x && y1 == y {
            if at(g, x2, y2) == Some(v) {
                if x2 == x {
                    assert(column_set(g, x).contains(v));
                } else if y2 == y {
                    assert(row_set(g, y).contains(v));
                } else {
                    assert(block_set(g, block_of(x, y)).contains(v));
                }
            }
        } else if x2 == x && y2 == y {
            if at(g, x1, y1) == Some(v) {
                if x1 == x {
                    assert(column_set(g, x).contains(v));
                } else if y1 == y {
                    assert(row_set(g, y).contains(v));
                } else {
                    assert(block_set(g, block_of(x, y)).contains(v));
                }
            }
        }
    }
}

/// Clearing a filled cell takes its value out of its row, column and block, and takes no
/// candidate away from any cell.
pub proof fn lemma_removal(g: Grid, x: int, y: int)
    requires
        valid_grid(g),
        in_range(x, y),
        at(g, x, y) is Some,
    ensures
        ({
            let h = g.update(9 * y + x, None);
            let w = at(g, x, y)->Some_0;
            &&& row_set(h, y) == row_set(g, y).remove(w)
            &&& column_set(h, x) == column_set(g, x).remove(w)
            &&& block_set(h, block_of(x, y)) == block_set(g, block_of(x, y)).remove(w)
            &&& forall|x2: int, y2: int| #![trigger candidates(h, x2, y2)] in_range(x2, y2)
                ==> candidates(g, x2, y2).subset_of(candidates(h, x2, y2))
        }),
{
    let w = at(g, x, y)->Some_0;
    lemma_clear(g, x, y, w);
    let h = g.update(9 * y + x, None);
    assert forall|x2: int, y2: int| #![trigger candidates(h, x2, y2)] in_range(x2, y2)
        implies candidates(g, x2, y2).subset_of(candidates(h, x2, y2)) by {
        lemma_block_range(x2, y2);
        assert(row_set(h, y2).subset_of(row_set(g, y2)));
        assert(column_set(h, x2).subset_of(column_set(g, x2)));
        assert(block_set(h, block_of(x2, y2)).subset_of(block_set(g, block_of(x2, y2))));
    }
}

/// The values among the first `k` cells of row `y`.
spec fn row_prefix_set(g: Grid, y: int, k: int) -> Set<CellValue> {
    Set::new(|v: CellValue| exists|x: int| 0 <= x < k && #[trigger] at(g, x, y) == Some(v))
}

/// The values among the first `k` cells of column `x`.
spec fn column_prefix_set(g: Grid, x: int, k: int) -> Set<CellValue> {
    Set::new(|v: CellValue| exists|y: int| 0 <= y < k && #[trigger] at(g, x, y) == Some(v))
}

proof fn lemma_row_prefix_len(g: Grid, y: int, k: int)
    requires
        valid_grid(g),
        0 <= y < 9,
        0 <= k <= 9,
    ensures
        row_prefix_set(g, y, k).finite(),
        row_prefix_set(g, y, k).len() == row_filled(g, y, k),
    decreases k,
{
    if k == 0 {
        assert(row_prefix_set(g, y, 0) =~= Set::empty());
    } else {
        lemma_row_prefix_len(g, y, k - 1);
        let prev = row_prefix_set(g, y, k - 1);
        if let Some(w) = at(g, k - 1, y) {
            assert(row_prefix_set(g, y, k) =~= prev.insert(w));
            if prev.contains(w) {
                let x = choose|x: int| 0 <= x < k - 1 && #[trigger] at(g, x, y) == Some(w);
                assert(at(g, x, y) != at(g, k - 1, y));
            }
        } else {
            assert(row_prefix_set(g, y, k) =~= prev);
        }
    }
}

proof fn lemma_column_prefix_len(g: Grid, x: int, k: int)
    requires
        valid_grid(g),
        0 <= x < 9,
        0 <= k <= 9,
    ensures
        column_prefix_set(g, x, k).finite(),
        column_prefix_set(g, x, k).len() == column_filled(g, x, k),
    decreases k,
{
    if k == 0 {
        assert(column_prefix_set(g, x, 0) =~= Set::empty());
    } else {
        lemma_column_prefix_len(g, x, k - 1);
        let prev = column_prefix_set(g, x, k - 1);
        if let Some(w) = at(g, x, k - 1) {
            assert(column_prefix_set(g, x, k) =~= prev.insert(w));
            if prev.contains(w) {
                let y = choose|y: int| 0 <= y < k - 1 && #[trigger] at(g, x, y) == Some(w);
                assert(at(g, x, y) != at(g, x, k - 1));
            }
        } else {
            assert(column_prefix_set(g, x, k) =~= prev);
        }
    }
}

/// In a valid grid, the number of values in a row or a column is its number of filled cells.
pub proof fn lemma_line_sizes(g: Grid, i: int)
    requires
        valid_grid(g),
        0 <= i < 9,
    ensures
        row_set(g, i).finite(),
        row_set(g, i).len() == row_filled(g, i, 9),
        column_set(g, i).finite(),
        column_set(g, i).len() == column_filled(g, i, 9),
{
    lemma_row_prefix_len(g, i, 9);
    lemma_column_prefix_len(g, i, 9);
    assert(row_set(g, i) =~= row_prefix_set(g, i, 9));
    assert(column_set(g, i) =~= column_prefix_set(g, i, 9));
}

/// Counting the empty cells row by row.
proof fn lemma_empty_by_row(g: Grid, y: int, k: int)
    requires
        g.len() == 81,
        0 <= y < 9,
        0 <= k <= 9,
    ensures
        empty_count(g, 9 * y + k) + row_filled(g, y, k) == empty_count(g, 9 * y) + k,
    decreases k,
{
    if k > 0 {
        lemma_empty_by_row(g, y, k - 1);
    }
}

/// A Sudoku board. Each row, column and block keeps the set of values placed in it;
/// `place_if_valid` is the one mutator and keeps the cells and these sets in step.
pub struct Redoku {
    cells: [Option<CellValue>; 81],
    row_values: [CellValueSet; 9],
    column_values: [CellValueSet; 9],
    /// Indexed by `bx + 3 * by` for block coordinates `(bx, by)`.
    block_values: [CellValueSet; 9],
}

impl View for Redoku {
    type V = Grid;

    closed spec fn view(&self) -> Grid {
        self.cells@
    }
}

/// The index of the block of `(x, y)`.
fn block_index(x: usize, y: usize) -> (r: usize)
    requires
        x < 9,
        y < 9,
    ensures
        r == block_of(x as int, y as int),
        r < 9,
{
    3 * (y / 3) + x / 3
}

impl Redoku {
    /// The cells obey the Sudoku rule, and each index set holds exactly the values of its row,
    /// column or block.
    pub closed spec fn wf(&self) -> bool {
        &&& valid_grid(self.cells@)
        &&& forall|i: int| 0 <= i < 9 ==> #[trigger] self.row_values@[i]@ == row_set(self.cells@, i)
        &&& forall|i: int| 0 <= i < 9 ==> #[trigger] self.column_values@[i]@ == column_set(self.cells@, i)
        &&& forall|i: int| 0 <= i < 9 ==> #[trigger] self.block_values@[i]@ == block_set(self.cells@, i)
    }

    /// No value occurs twice in a row, a column or a block of a well-formed board.
    pub proof fn lemma_wf(&self)
        requires
            self.wf(),
        ensures
            valid_grid(self@),
    {
    }

    /// An empty board.
    pub fn new() -> (r: Redoku)
        ensures
            r.wf(),
            forall|i: int| 0 <= i < 81 ==> #[trigger] r@[i] is None,
            r@.len() == 81,
    {
        let r = Redoku {
            cells: [None; 81],
            row_values: [CellValueSet::new(); 9],
            column_values: [CellValueSet::new(); 9],
            block_values: [CellValueSet::new(); 9],
        };
        assert forall|i: int| 0 <= i < 9 implies #[trigger] r.row_values@[i]@ == row_set(r.cells@, i) by {
            assert(row_set(r.cells@, i) =~= Set::empty());
        }
        assert forall|i: int| 0 <= i < 9 implies #[trigger] r.column_values@[i]@ == column_set(r.cells@, i) by {
            assert(column_set(r.cells@, i) =~= Set::empty());
        }
        assert forall|i: int| 0 <= i < 9 implies #[trigger] r.block_values@[i]@ == block_set(r.cells@, i) by {
            assert forall|v: CellValue| !#[trigger] block_set(r.cells@, i).contains(v) by {
                if block_set(r.cells@, i).contains(v) {
                    let (x, y) = choose|x: int, y: int| in_range(x, y) && block_of(x, y) == i && #[trigger] at(r.cells@, x, y) == Some(v);
                    lemma_index(x, y, x, y);
                }
            }
            assert(block_set(r.cells@, i) =~= Set::empty());
        }
        assert forall|x1: int, y1: int| in_range(x1, y1) implies #[trigger] at(r.cells@, x1, y1) is None by {
            lemma_index(x1, y1, x1, y1);
        }
        r
    }

    /// Puts `value` at `(x, y)`, in place of what the cell held, or clears the cell when
    /// `value` is `None`.
    ///
    /// A value that already occurs in the row, the column or the block of the cell is refused:
    /// the result is `false` and the board is left as it was. Clearing always succeeds.
    pub fn place_if_valid(&mut self, x: usize, y: usize, value: Option<CellValue>) -> (r: bool)
        requires
            old(self).wf(),
            x < 9,
            y < 9,
        ensures
            final(self).wf(),
            match value {
                Some(v) => {
                    &&& r == !conflicts(old(self)@, x as int, y as int, v)
                    &&& r ==> final(self)@ == old(self)@.update(9 * y + x, Some(v))
                    &&& !r ==> *final(self) == *old(self)
                },
                None => r && final(self)@ == old(self)@.update(9 * y + x, None),
            },
    {
        let ghost g0 = self.cells@;
        let b = block_index(x, y);
        let i = 9 * y + x;
        proof {
            lemma_index(x as int, y as int, x as int, y as int);
        }
        if let Some(v) = value {
            if self.column_values[x].contains(v) || self.row_values[y].contains(v)
                || self.block_values[b].contains(v) {
                return false;
            }
        }
        if let Some(w) = self.cells[i] {
            proof {
                lemma_clear(self.cells@, x as int, y as int, w);
            }
            let mut s = self.column_values[x];
            s.remove(w);
            self.column_values[x] = s;
            let mut s = self.row_values[y];
            s.remove(w);
            self.row_values[y] = s;
            let mut s = self.block_values[b];
            s.remove(w);
            self.block_values[b] = s;
            self.cells[i] = None;
            assert(self.cells@ == g0.update(9 * y + x, None));
        }
        if let Some(v) = value {
            let ghost g1 = self.cells@;
            proof {
                lemma_fill(g1, x as int, y as int, v);
            }
            let mut s = self.column_values[x];
            s.insert(v);
            self.column_values[x] = s;
            let mut s = self.row_values[y];
            s.insert(v);
            self.row_values[y] = s;
            let mut s = self.block_values[b];
            s.insert(v);
            self.block_values[b] = s;
            self.cells[i] = Some(v);
            assert(self.cells@ =~= g0.update(9 * y + x, Some(v)));
        }
        true
    }

    /// Number of empty cells: 81 minus the sizes of the nine row sets.
    pub fn empty_cells(&self) -> (r: usize)
        requires
            self.wf(),
        ensures
            r == empty_cells_of(self@),
            r <= 81,
    {
        let mut filled: usize = 0;
        let mut i: usize = 0;
        while i < 9
            invariant
                self.wf(),
                i <= 9,
                filled + empty_count(self@, 9 * i) == 9 * i,
            decreases 9 - i,
        {
            proof {
                lemma_line_sizes(self@, i as int);
                lemma_empty_by_row(self@, i as int, 9);
            }
            filled = filled + self.row_values[i].len();
            i = i + 1;
        }
        81 - filled
    }

    /// The values excluded at `(x, y)`: those of its row, its column and its block.
    pub fn calculate_impossible_values(&self, x: usize, y: usize) -> (r: CellValueSet)
        requires
            self.wf(),
            x < 9,
            y < 9,
        ensures
            r@ == excluded(self@, x as int, y as int),
    {
        let b = block_index(x, y);
        self.row_values[y].union(&self.column_values[x]).union(&self.block_values[b])
    }

    /// The values that may still go at `(x, y)`.
    pub fn calculate_possible_values(&self, x: usize, y: usize) -> (r: CellValueSet)
        requires
            self.wf(),
            x < 9,
            y < 9,
        ensures
            r@ == candidates(self@, x as int, y as int),
    {
        self.calculate_impossible_values(x, y).complement()
    }

    /// The values of row `row`.
    pub fn row_values(&self, row: &usize) -> (r: &CellValueSet)
        requires
            self.wf(),
            *row < 9,
        ensures
            r@ == row_set(self@, *row as int),
    {
        &self.row_values[*row]
    }

    /// The values of column `column`.
    pub fn column_values(&self, column: &usize) -> (r: &CellValueSet)
        requires
            self.wf(),
            *column < 9,
        ensures
            r@ == column_set(self@, *column as int),
    {
        &self.column_values[*column]
    }

    /// The values of the block with block coordinates `(bx, by)`.
    pub fn block_values(&self, bx: usize, by: usize) -> (r: &CellValueSet)
        requires
            self.wf(),
            bx < 3,
            by < 3,
        ensures
            r@ == block_set(self@, bx + 3 * by),
    {
        &self.block_values[bx + 3 * by]
    }
}

impl Clone for Redoku {
    /// A full, independent copy.
    fn clone(&self) -> (r: Redoku)
        ensures
            r == *self,
    {
        Redoku {
            cells: self.cells,
            row_values: self.row_values,
            column_values: self.column_values,
            block_values: self.block_values,
        }
    }
}

impl Redoku {
    /// Same cells and same index sets.
    pub closed spec fn same_board(&self, other: &Redoku) -> bool {
        &&& self.cells@ == other.cells@
        &&& forall|i: int| 0 <= i < 9 ==> #[trigger] self.row_values@[i]@ == other.row_values@[i]@
        &&& forall|i: int| 0 <= i < 9 ==> #[trigger] self.column_values@[i]@ == other.column_values@[i]@
        &&& forall|i: int| 0 <= i < 9 ==> #[trigger] self.block_values@[i]@ == other.block_values@[i]@
    }

    /// Two well-formed boards are the same board exactly when their cells agree.
    pub proof fn lemma_same_board(&self, other: &Redoku)
        requires
            self.wf(),
            other.wf(),
        ensures
            self.same_board(other) == (self@ == other@),
    {
    }
}

impl PartialEq for Redoku {
    fn eq(&self, other: &Redoku) -> (r: bool) {
        let mut i: usize = 0;
        while i < 81
            invariant
                i <= 81,
                forall|j: int| 0 <= j < i ==> #[trigger] self.cells@[j] == other.cells@[j],
            decreases 81 - i,
        {
            if self.cells[i] != other.cells[i] {
                return false;
            }
            i = i + 1;
        }
        assert(self.cells@ =~= other.cells@);
        let mut k: usize = 0;
        while k < 9
            invariant
                k <= 9,
                forall|j: int| 0 <= j < k ==> #[trigger] self.row_values@[j]@ == other.row_values@[j]@,
                forall|j: int| 0 <= j < k ==> #[trigger] self.column_values@[j]@ == other.column_values@[j]@,
                forall|j: int| 0 <= j < k ==> #[trigger] self.block_values@[j]@ == other.block_values@[j]@,
            decreases 9 - k,
        {
            if !self.row_values[k].same_members(&other.row_values[k])
                || !self.column_values[k].same_members(&other.column_values[k])
                || !self.block_values[k].same_members(&other.block_values[k]) {
                return false;
            }
            k = k + 1;
        }
        true
    }
}

impl vstd::std_specs::cmp::PartialEqSpecImpl for Redoku {
    open spec fn obeys_eq_spec() -> bool {
        true
    }

    open spec fn eq_spec(&self, other: &Redoku) -> bool {
        self.same_board(other)
    }
}

impl core::ops::Index<(usize, usize)> for Redoku {
    type Output = Option<CellValue>;

    fn index(&self, index: (usize, usize)) -> (r: &Option<CellValue>)
        ensures
            *r == at(self@, index.0 as int, index.1 as int),
    {
        &self.cells[9 * index.1 + index.0]
    }
}

impl vstd::std_specs::core::IndexSpecImpl<(usize, usize)> for Redoku {
    open spec fn index_req(&self, index: &(usize, usize)) -> bool {
        index.0 < 9 && index.1 < 9
    }
}

} // verus!

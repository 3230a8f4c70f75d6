//! Human-style solving techniques and the difficulty grade built on them.
use vstd::prelude::*;

use crate::redoku::{
    at, candidates, column_filled, empty_count, empty_cells_of, lemma_line_sizes, row_filled, Grid, Redoku,
};
use crate::value::{CellValue, CellValueSet};

verus! {

/// `h` keeps every filled cell of `g`.
pub open spec fn extends(g: Grid, h: Grid) -> bool {
    &&& g.len() == 81
    &&& h.len() == 81
    &&& forall|i: int| 0 <= i < 81 && (#[trigger] g[i]) is Some ==> h[i] == g[i]
}

/// A grid that keeps every filled cell of another has no more empty cells, and has fewer
/// if it differs from it.
pub proof fn lemma_extends_empty(g: Grid, h: Grid, n: int)
    requires
        extends(g, h),
        0 <= n <= 81,
    ensures
        empty_count(h, n) <= empty_count(g, n),
        (exists|i: int| 0 <= i < n && #[trigger] g[i] != h[i]) ==> empty_count(h, n) < empty_count(g, n),
    decreases n,
{
    if n > 0 {
        lemma_extends_empty(g, h, n - 1);
        if exists|i: int| 0 <= i < n && #[trigger] g[i] != h[i] {
            let i = choose|i: int| 0 <= i < n && #[trigger] g[i] != h[i];
            if i < n - 1 {
                assert(exists|j: int| 0 <= j < n - 1 && #[trigger] g[j] != h[j]);
            }
        }
    }
}

proof fn lemma_differs(g: Grid, h: Grid)
    requires
        extends(g, h),
        g != h,
    ensures
        empty_cells_of(h) < empty_cells_of(g),
{
    if forall|i: int| 0 <= i < 81 ==> #[trigger] g[i] == h[i] {
        assert(g =~= h);
    }
    lemma_extends_empty(g, h, 81);
}

/// Naked single at `(x, y)`: an empty cell with a single candidate gets it.
pub open spec fn naked_step(g: Grid, x: int, y: int) -> Grid {
    if at(g, x, y) is None && candidates(g, x, y).len() == 1 {
        g.update(9 * y + x, Some(candidates(g, x, y).choose()))
    } else {
        g
    }
}

/// Naked singles applied in turn from `(x, y)` on, column by column (`x` outer, `y` inner),
/// each cell seeing the placements made before it.
pub open spec fn naked_scan(g: Grid, x: int, y: int) -> Grid
    decreases 9 - x, 9 - y,
{
    if x >= 9 {
        g
    } else if y >= 9 {
        naked_scan(g, x + 1, 0)
    } else {
        naked_scan(naked_step(g, x, y), x, y + 1)
    }
}

/// One pass of naked-single elimination over the whole board.
pub open spec fn naked_pass(g: Grid) -> Grid {
    naked_scan(g, 0, 0)
}

/// Places the value of every cell that has a single candidate left, scanning the board once.
/// Returns whether it placed anything.
pub fn try_row_col_block_elimination(redoku: &mut Redoku) -> (r: bool)
    requires
        old(redoku).wf(),
    ensures
        final(redoku).wf(),
        final(redoku)@ == naked_pass(old(redoku)@),
        extends(old(redoku)@, final(redoku)@),
        r == (final(redoku)@ != old(redoku)@),
{
    let ghost g0 = redoku@;
    proof {
        redoku.lemma_wf();
    }
    let mut success = false;
    let mut x: usize = 0;
    while x < 9
        invariant
            x <= 9,
            redoku.wf(),
            naked_scan(redoku@, x as int, 0) == naked_pass(g0),
            extends(g0, redoku@),
            success == (redoku@ != g0),
        decreases 9 - x,
    {
        let mut y: usize = 0;
        while y < 9
            invariant
                x < 9,
                y <= 9,
                redoku.wf(),
                naked_scan(redoku@, x as int, y as int) == naked_pass(g0),
                extends(g0, redoku@),
                success == (redoku@ != g0),
            decreases 9 - y,
        {
            let ghost g = redoku@;
            proof {
                redoku.lemma_wf();
            }
            if redoku[(x, y)].is_none() {
                let values = redoku.calculate_possible_values(x, y);
                if values.len() == 1 {
                    let v = values.first().unwrap();
                    proof {
                        values.lemma_singleton(v);
                        assert(set![v].contains(set![v].choose()));
                    }
                    let placed = redoku.place_if_valid(x, y, Some(v));
                    assert(placed);
                    proof {
                        assert(redoku@[9 * y + x] != g0[9 * y + x]);
                    }
                    success = true;
                }
            }
            assert(redoku@ == naked_step(g, x as int, y as int));
            y = y + 1;
        }
        x = x + 1;
    }
    success
}

/// The `i`-th cell of a scope of `(x, y)`: its column for `kind == 0`, its row for
/// `kind == 1`, its block otherwise (read row by row).
pub open spec fn scope_cell(kind: int, x: int, y: int, i: int) -> (int, int) {
    if kind == 0 {
        (x, i)
    } else if kind == 1 {
        (i, y)
    } else {
        (3 * (x / 3) + i % 3, 3 * (y / 3) + i / 3)
    }
}

/// The candidates of `(x, y)` minus those of every other empty cell among the first `k` of
/// the scope `kind`.
pub open spec fn lone_upto(g: Grid, kind: int, x: int, y: int, k: int) -> Set<CellValue>
    decreases k,
{
    if k <= 0 {
        candidates(g, x, y)
    } else {
        let (cx, cy) = scope_cell(kind, x, y, k - 1);
        if (cx != x || cy != y) && at(g, cx, cy) is None {
            lone_upto(g, kind, x, y, k - 1).difference(candidates(g, cx, cy))
        } else {
            lone_upto(g, kind, x, y, k - 1)
        }
    }
}

/// The candidates of `(x, y)` that no other empty cell of the scope `kind` can take.
pub open spec fn lone_values(g: Grid, kind: int, x: int, y: int) -> Set<CellValue> {
    lone_upto(g, kind, x, y, 9)
}

/// Hidden singles applied in turn from `(x, y)` on, column by column. At an empty cell the
/// column scope is tried first, then the row, then the block; a value forced by the column or
/// the row ends the work on the current column `x`, one forced by the block does not.
pub open spec fn lone_scan(g: Grid, x: int, y: int) -> Grid
    decreases 9 - x, 9 - y,
{
    if x >= 9 {
        g
    } else if y >= 9 {
        lone_scan(g, x + 1, 0)
    } else if at(g, x, y) is Some {
        lone_scan(g, x, y + 1)
    } else if lone_values(g, 0, x, y).len() == 1 {
        lone_scan(g.update(9 * y + x, Some(lone_values(g, 0, x, y).choose())), x + 1, 0)
    } else if lone_values(g, 1, x, y).len() == 1 {
        lone_scan(g.update(9 * y + x, Some(lone_values(g, 1, x, y).choose())), x + 1, 0)
    } else if lone_values(g, 2, x, y).len() == 1 {
        lone_scan(g.update(9 * y + x, Some(lone_values(g, 2, x, y).choose())), x, y + 1)
    } else {
        lone_scan(g, x, y + 1)
    }
}

/// One pass of hidden-single search over the whole board.
pub open spec fn lone_pass(g: Grid) -> Grid {
    lone_scan(g, 0, 0)
}

fn scope_cell_exec(kind: usize, x: usize, y: usize, i: usize) -> (r: (usize, usize))
    requires
        x < 9,
        y < 9,
        i < 9,
    ensures
        r.0 == scope_cell(kind as int, x as int, y as int, i as int).0,
        r.1 == scope_cell(kind as int, x as int, y as int, i as int).1,
        r.0 < 9,
        r.1 < 9,
{
    if kind == 0 {
        (x, i)
    } else if kind == 1 {
        (i, y)
    } else {
        (3 * (x / 3) + i % 3, 3 * (y / 3) + i / 3)
    }
}

/// The candidates of the empty cell `(x, y)` that no other empty cell of the scope `kind` can take.
fn lone_values_exec(redoku: &Redoku, kind: usize, x: usize, y: usize) -> (r: CellValueSet)
    requires
        redoku.wf(),
        x < 9,
        y < 9,
    ensures
        r@ == lone_values(redoku@, kind as int, x as int, y as int),
{
    let mut values = redoku.calculate_possible_values(x, y);
    let mut i: usize = 0;
    while i < 9
        invariant
            redoku.wf(),
            x < 9,
            y < 9,
            i <= 9,
            values@ == lone_upto(redoku@, kind as int, x as int, y as int, i as int),
        decreases 9 - i,
    {
        let (cx, cy) = scope_cell_exec(kind, x, y, i);
        if (cx != x || cy != y) && redoku[(cx, cy)].is_none() {
            values = values.difference(&redoku.calculate_possible_values(cx, cy));
        }
        i = i + 1;
    }
    values
}

/// Places values that, within a column, a row or a block, only one empty cell can take,
/// scanning the board once. Returns whether it placed anything.
pub fn try_lone_ranger(redoku: &mut Redoku) -> (r: bool)
    requires
        old(redoku).wf(),
    ensures
        final(redoku).wf(),
        final(redoku)@ == lone_pass(old(redoku)@),
        extends(old(redoku)@, final(redoku)@),
        r == (final(redoku)@ != old(redoku)@),
{
    let ghost g0 = redoku@;
    proof {
        redoku.lemma_wf();
    }
    let mut success = false;
    let mut x: usize = 0;
    while x < 9
        invariant
            x <= 9,
            redoku.wf(),
            lone_scan(redoku@, x as int, 0) == lone_pass(g0),
            extends(g0, redoku@),
            success == (redoku@ != g0),
        decreases 9 - x,
    {
        let mut y: usize = 0;
        while y < 9
            invariant
                x < 9,
                y <= 9,
                redoku.wf(),
                lone_scan(redoku@, x as int, y as int) == lone_pass(g0),
                extends(g0, redoku@),
                success == (redoku@ != g0),
            decreases 9 - y,
        {
            let ghost g = redoku@;
            proof {
                redoku.lemma_wf();
            }
            let mut next = y + 1;
            if redoku[(x, y)].is_none() {
                let column_values = lone_values_exec(redoku, 0, x, y);
                let row_values = lone_values_exec(redoku, 1, x, y);
                let block_values = lone_values_exec(redoku, 2, x, y);
                if column_values.len() == 1 {
                    let v = column_values.first().unwrap();
                    proof {
                        lemma_forced_fits(g, 0, x as int, y as int, 9);
                        column_values.lemma_singleton(v);
                        assert(set![v].contains(set![v].choose()));
                    }
                    if redoku.place_if_valid(x, y, Some(v)) {
                        assert(redoku@[9 * y + x] != g0[9 * y + x]);
                        success = true;
                        next = 9;
                    }
                } else if row_values.len() == 1 {
                    let v = row_values.first().unwrap();
                    proof {
                        lemma_forced_fits(g, 1, x as int, y as int, 9);
                        row_values.lemma_singleton(v);
                        assert(set![v].contains(set![v].choose()));
                    }
                    if redoku.place_if_valid(x, y, Some(v)) {
                        assert(redoku@[9 * y + x] != g0[9 * y + x]);
                        success = true;
                        next = 9;
                    }
                } else if block_values.len() == 1 {
                    let v = block_values.first().unwrap();
                    proof {
                        lemma_forced_fits(g, 2, x as int, y as int, 9);
                        block_values.lemma_singleton(v);
                        assert(set![v].contains(set![v].choose()));
                    }
                    if redoku.place_if_valid(x, y, Some(v)) {
                        assert(redoku@[9 * y + x] != g0[9 * y + x]);
                        success = true;
                    }
                }
            }
            y = next;
        }
        x = x + 1;
    }
    success
}

/// What remains of a cell's candidates after subtracting others' is still a candidate.
proof fn lemma_forced_fits(g: Grid, kind: int, x: int, y: int, k: int)
    ensures
        lone_upto(g, kind, x, y, k).subset_of(candidates(g, x, y)),
    decreases k,
{
    if k > 0 {
        lemma_forced_fits(g, kind, x, y, k - 1);
    }
}

/// The pairs ("twins") pass. It is not carried out: it places nothing and reports no progress,
/// which keeps the grade thresholds as they were tuned.
pub fn try_look_for_twins(redoku: &mut Redoku) -> (r: bool)
    ensures
        !r,
        *final(redoku) == *old(redoku),
{
    false
}

/// The grade's difficulty classes, from easiest to hardest.
#[derive(Debug, Copy, Clone, PartialEq, Eq, Structural, PartialOrd, Ord, Hash)]
pub enum Difficulty {
    VeryEasy,
    Easy,
    Medium,
    Hard,
    Evil,
}

/// Sub-score for the number of givens (filled cells), from 1 (many) to 5 (few).
/// Boards with fewer than 22 givens have no score.
pub open spec fn givens_bucket(givens: int) -> int {
    if givens >= 50 {
        1
    } else if givens >= 36 {
        2
    } else if givens >= 32 {
        3
    } else if givens >= 28 {
        4
    } else {
        5
    }
}

/// Sub-score for the least number of givens in a row or a column.
pub open spec fn spread_bucket(least: int) -> int {
    if least == 0 {
        5
    } else if least <= 2 {
        4
    } else if least == 3 {
        3
    } else if least == 4 {
        2
    } else {
        1
    }
}

/// The least number of filled cells in rows `0..k` and columns `0..k`, and at most 9.
pub open spec fn least_givens_upto(g: Grid, k: int) -> int
    decreases k,
{
    if k <= 0 {
        9
    } else {
        let prev = least_givens_upto(g, k - 1);
        let m = if row_filled(g, k - 1, 9) < prev {
            row_filled(g, k - 1, 9) as int
        } else {
            prev
        };
        if column_filled(g, k - 1, 9) < m {
            column_filled(g, k - 1, 9) as int
        } else {
            m
        }
    }
}

/// The least number of givens over all rows and columns.
pub open spec fn least_givens(g: Grid) -> int {
    least_givens_upto(g, 9)
}

/// Scores the number of givens: 1 for 50 or more, 2 for 36 to 49, 3 for 32 to 35,
/// 4 for 28 to 31, 5 for 22 to 27.
pub fn score_cell_total_count(redoku: &Redoku) -> (r: u32)
    requires
        redoku.wf(),
        81 - empty_cells_of(redoku@) >= 22,
    ensures
        r == givens_bucket(81 - empty_cells_of(redoku@)),
{
    let givens = 81 - redoku.empty_cells();
    if givens >= 50 {
        1
    } else if givens >= 36 {
        2
    } else if givens >= 32 {
        3
    } else if givens >= 28 {
        4
    } else {
        5
    }
}

/// Scores the least number of givens in any row or column: 5 for none, 4 for one or two,
/// 3 for three, 2 for four, 1 for five or more.
pub fn score_cell_row_column_count(redoku: &Redoku) -> (r: u32)
    requires
        redoku.wf(),
    ensures
        r == spread_bucket(least_givens(redoku@)),
{
    let mut min_len: usize = 9;
    let mut i: usize = 0;
    while i < 9
        invariant
            redoku.wf(),
            i <= 9,
            min_len == least_givens_upto(redoku@, i as int),
            min_len <= 9,
        decreases 9 - i,
    {
        proof {
            redoku.lemma_wf();
            lemma_line_sizes(redoku@, i as int);
        }
        let row_len = redoku.row_values(&i).len();
        if row_len < min_len {
            min_len = row_len;
        }
        let column_len = redoku.column_values(&i).len();
        if column_len < min_len {
            min_len = column_len;
        }
        i = i + 1;
    }
    if min_len == 0 {
        5
    } else if min_len <= 2 {
        4
    } else if min_len == 3 {
        3
    } else if min_len == 4 {
        2
    } else {
        1
    }
}

/// Height of the technique ladder reached from `g`, having reached `m` so far. Each round runs
/// a naked-single pass, then a hidden-single pass (the pairs pass never progresses); a technique
/// that progresses raises the height to 1 or 2. The ladder stops once the board is full, and
/// gives 5 (search needed) after a round in which nothing progressed.
pub open spec fn ladder(g: Grid, m: int) -> int
    decreases empty_cells_of(g),
    via ladder_decreases
{
    if g.len() != 81 {
        m
    } else {
        let g1 = naked_pass(g);
        let m1 = if g1 != g && m < 1 {
            1
        } else {
            m
        };
        if g1 != g && empty_cells_of(g1) == 0 {
            m1
        } else {
            let g2 = lone_pass(g1);
            let m2 = if g2 != g1 && m1 < 2 {
                2
            } else {
                m1
            };
            if g2 != g1 && empty_cells_of(g2) == 0 {
                m2
            } else if g1 == g && g2 == g1 {
                5
            } else {
                ladder(g2, m2)
            }
        }
    }
}

/// The two passes of a round keep every filled cell.
pub proof fn lemma_passes_extend(g: Grid)
    requires
        g.len() == 81,
    ensures
        extends(g, naked_pass(g)),
        extends(naked_pass(g), lone_pass(naked_pass(g))),
{
    lemma_naked_scan_extends(g, 0, 0);
    lemma_lone_scan_extends(naked_pass(g), 0, 0);
}

proof fn lemma_extends_trans(a: Grid, b: Grid, c: Grid)
    requires
        extends(a, b),
        extends(b, c),
    ensures
        extends(a, c),
{
}

proof fn lemma_extends_antisym(a: Grid, b: Grid)
    requires
        extends(a, b),
        extends(b, a),
    ensures
        a == b,
{
    assert(a =~= b);
}

proof fn lemma_fill_extends(g: Grid, x: int, y: int, v: CellValue)
    requires
        g.len() == 81,
        0 <= x < 9,
        0 <= y < 9,
        at(g, x, y) is None,
    ensures
        extends(g, g.update(9 * y + x, Some(v))),
{
}

proof fn lemma_naked_scan_extends(g: Grid, x: int, y: int)
    requires
        g.len() == 81,
        0 <= x,
        0 <= y,
    ensures
        extends(g, naked_scan(g, x, y)),
    decreases 9 - x, 9 - y,
{
    if x >= 9 {
    } else if y >= 9 {
        lemma_naked_scan_extends(g, x + 1, 0);
    } else {
        let h = naked_step(g, x, y);
        if at(g, x, y) is None && candidates(g, x, y).len() == 1 {
            lemma_fill_extends(g, x, y, candidates(g, x, y).choose());
        }
        lemma_naked_scan_extends(h, x, y + 1);
        lemma_extends_trans(g, h, naked_scan(h, x, y + 1));
    }
}

proof fn lemma_lone_scan_extends(g: Grid, x: int, y: int)
    requires
        g.len() == 81,
        0 <= x,
        0 <= y,
    ensures
        extends(g, lone_scan(g, x, y)),
    decreases 9 - x, 9 - y,
{
    if x >= 9 {
    } else if y >= 9 {
        lemma_lone_scan_extends(g, x + 1, 0);
    } else if at(g, x, y) is Some {
        lemma_lone_scan_extends(g, x, y + 1);
    } else {
        let k = if lone_values(g, 0, x, y).len() == 1 {
            0int
        } else if lone_values(g, 1, x, y).len() == 1 {
            1int
        } else {
            2int
        };
        let h = g.update(9 * y + x, Some(lone_values(g, k, x, y).choose()));
        lemma_fill_extends(g, x, y, lone_values(g, k, x, y).choose());
        if k < 2 {
            lemma_lone_scan_extends(h, x + 1, 0);
            lemma_extends_trans(g, h, lone_scan(h, x + 1, 0));
        } else if lone_values(g, 2, x, y).len() == 1 {
            lemma_lone_scan_extends(h, x, y + 1);
            lemma_extends_trans(g, h, lone_scan(h, x, y + 1));
        } else {
            lemma_lone_scan_extends(g, x, y + 1);
        }
    }
}

/// Height of the technique ladder needed on `redoku`: 1 for naked singles, 2 for hidden
/// singles, 5 when a round makes no progress. Works on a copy; `redoku` is left as it is.
pub fn score_human_solving_techniques(redoku: &Redoku) -> (r: u32)
    requires
        redoku.wf(),
    ensures
        r == ladder(redoku@, 0),
{
    let mut board = redoku.clone();
    let mut max_score: u32 = 0;
    let mut done = false;
    let mut result: u32 = 0;
    proof {
        board.lemma_wf();
    }
    while !done
        invariant
            board.wf(),
            board@.len() == 81,
            max_score <= 2,
            !done ==> ladder(board@, max_score as int) == ladder(redoku@, 0),
            done ==> result == ladder(redoku@, 0),
        decreases empty_cells_of(board@) + if done {
            0int
        } else {
            1int
        },
    {
        let ghost g = board@;
        let ghost m = max_score;
        proof {
            lemma_passes_extend(g);
            lemma_extends_trans(g, naked_pass(g), lone_pass(naked_pass(g)));
        }
        let rcb_elimination = try_row_col_block_elimination(&mut board);
        if rcb_elimination {
            if max_score < 1 {
                max_score = 1;
            }
        }
        if rcb_elimination && board.empty_cells() == 0 {
            result = max_score;
            done = true;
        } else {
            let lone_ranger = try_lone_ranger(&mut board);
            if lone_ranger {
                if max_score < 2 {
                    max_score = 2;
                }
            }
            if lone_ranger && board.empty_cells() == 0 {
                result = max_score;
                done = true;
            } else {
                let twins = try_look_for_twins(&mut board);
                if !rcb_elimination && !lone_ranger && !twins {
                    result = 5;
                    done = true;
                } else {
                    proof {
                        if board@ == g {
                            lemma_extends_antisym(g, naked_pass(g));
                        }
                        lemma_differs(g, board@);
                    }
                }
            }
        }
        proof {
            lemma_extends_empty(g, board@, 81);
        }
    }
    result
}

/// The grade that the three sub-scores give: the weighted score
/// `0.4 * givens + 0.2 * spread + 0.2 * ladder`, that is `(2 * givens + spread + ladder) / 5`,
/// rounded to the nearest whole number (never halfway between two), read as a class.
pub open spec fn grade_from_scores(givens: int, spread: int, height: int) -> Difficulty {
    let rounded = (2 * (2 * givens + spread + height) + 5) / 10;
    if rounded <= 1 {
        Difficulty::VeryEasy
    } else if rounded == 2 {
        Difficulty::Easy
    } else if rounded == 3 {
        Difficulty::Medium
    } else if rounded == 4 {
        Difficulty::Hard
    } else {
        Difficulty::Evil
    }
}

/// The grade of a board.
pub open spec fn grade_of(g: Grid) -> Difficulty {
    grade_from_scores(givens_bucket(81 - empty_cells_of(g)), spread_bucket(least_givens(g)), ladder(g, 0))
}

/// Classifies a board by difficulty.
pub trait RedokuGrader {
    /// Boards that can be graded.
    spec fn gradable(&self) -> bool;

    /// The grade of a gradable board.
    spec fn grade(&self) -> Difficulty;

    fn grade_difficulty(&self) -> (r: Difficulty)
        requires
            self.gradable(),
        ensures
            r == self.grade(),
    ;
}

impl RedokuGrader for Redoku {
    /// A well-formed board with at least 22 givens.
    open spec fn gradable(&self) -> bool {
        self.wf() && 81 - empty_cells_of(self@) >= 22
    }

    open spec fn grade(&self) -> Difficulty {
        grade_of(self@)
    }

    fn grade_difficulty(&self) -> (r: Difficulty) {
        let givens = score_cell_total_count(self);
        let spread = score_cell_row_column_count(self);
        let height = score_human_solving_techniques(self);
        proof {
            lemma_ladder_range(self@, 0);
        }
        let rounded = (2 * (2 * givens + spread + height) + 5) / 10;
        if rounded <= 1 {
            Difficulty::VeryEasy
        } else if rounded == 2 {
            Difficulty::Easy
        } else if rounded == 3 {
            Difficulty::Medium
        } else if rounded == 4 {
            Difficulty::Hard
        } else {
            Difficulty::Evil
        }
    }
}

/// The ladder height stays between 0 and 5.
pub proof fn lemma_ladder_range(g: Grid, m: int)
    requires
        0 <= m <= 2,
    ensures
        0 <= ladder(g, m) <= 5,
    decreases empty_cells_of(g),
{
    if g.len() == 81 {
        let g1 = naked_pass(g);
        let g2 = lone_pass(g1);
        let m1 = if g1 != g && m < 1 {
            1
        } else {
            m
        };
        let m2 = if g2 != g1 && m1 < 2 {
            2
        } else {
            m1
        };
        if !(g1 != g && empty_cells_of(g1) == 0) && !(g2 != g1 && empty_cells_of(g2) == 0) && !(g1 == g
            && g2 == g1) {
            lemma_round_progress(g);
            lemma_ladder_range(g2, m2);
        }
    }
}

/// A round in which some pass progressed leaves fewer empty cells.
proof fn lemma_round_progress(g: Grid)
    requires
        g.len() == 81,
        !(naked_pass(g) == g && lone_pass(naked_pass(g)) == naked_pass(g)),
    ensures
        empty_cells_of(lone_pass(naked_pass(g))) < empty_cells_of(g),
{
    let g1 = naked_pass(g);
    let g2 = lone_pass(g1);
    lemma_passes_extend(g);
    lemma_extends_trans(g, g1, g2);
    if g2 == g {
        lemma_extends_antisym(g, g1);
    }
    lemma_differs(g, g2);
}

#[via_fn]
proof fn ladder_decreases(g: Grid, m: int) {
    if g.len() == 81 && !(naked_pass(g) == g && lone_pass(naked_pass(g)) == naked_pass(g)) {
        lemma_round_progress(g);
    }
}

/// Naked-single elimination changes nothing on a board where no empty cell has exactly one
/// candidate.
pub proof fn lemma_naked_pass_idle(g: Grid)
    requires
        forall|x: int, y: int|
            0 <= x < 9 && 0 <= y < 9 && #[trigger] at(g, x, y) is None ==> candidates(g, x, y).len() != 1,
    ensures
        naked_pass(g) == g,
{
    lemma_naked_scan_idle(g, 0, 0);
}

proof fn lemma_naked_scan_idle(g: Grid, x: int, y: int)
    requires
        0 <= x,
        0 <= y,
        forall|x: int, y: int|
            0 <= x < 9 && 0 <= y < 9 && #[trigger] at(g, x, y) is None ==> candidates(g, x, y).len() != 1,
    ensures
        naked_scan(g, x, y) == g,
    decreases 9 - x, 9 - y,
{
    if x >= 9 {
    } else if y >= 9 {
        lemma_naked_scan_idle(g, x + 1, 0);
    } else {
        lemma_naked_scan_idle(g, x, y + 1);
    }
}

/// A board with at least 50 givens, at least 5 in every row and column, that one pass of naked
/// singles completes, grades very easy (sub-scores 1, 1 and 1).
pub proof fn lemma_very_easy(g: Grid)
    requires
        g.len() == 81,
        81 - empty_cells_of(g) >= 50,
        least_givens(g) >= 5,
        naked_pass(g) != g,
        empty_cells_of(naked_pass(g)) == 0,
    ensures
        ladder(g, 0) == 1,
        grade_of(g) == Difficulty::VeryEasy,
{
}

/// The weighted score always rounds to a whole number from 1 to 4: with sub-scores of at most
/// 5 it stays at or below `0.8 * 5 = 4`, so no board grades evil.
pub proof fn lemma_grade_never_evil(g: Grid)
    ensures
        grade_of(g) != Difficulty::Evil,
{
    lemma_ladder_range(g, 0);
}

/// Grading depends on the cells alone: copies of a board grade the same.
pub proof fn lemma_grade_of_copies(a: &Redoku, b: &Redoku)
    requires
        a.gradable(),
        b.gradable(),
        a@ == b@,
    ensures
        a.grade() == b.grade(),
{
}

} // verus!

use redoku::CellValue::{Eight, Five, Four, Nine, One, Seven, Six, Three, Two};
use redoku::{
    score_cell_row_column_count, score_cell_total_count, score_human_solving_techniques,
    try_lone_ranger, try_look_for_twins, try_row_col_block_elimination, CellValue, Difficulty,
    Redoku, RedokuGrader,
};

/// A complete, valid grid, row by row.
const SOLUTION: [usize; 81] = [
    2, 3, 4, 6, 5, 1, 7, 9, 8, //
    6, 7, 5, 3, 9, 8, 2, 1, 4, //
    9, 8, 1, 4, 2, 7, 5, 6, 3, //
    4, 1, 9, 7, 8, 3, 6, 5, 2, //
    5, 6, 3, 1, 4, 2, 9, 8, 7, //
    7, 2, 8, 5, 6, 9, 4, 3, 1, //
    3, 4, 6, 2, 1, 5, 8, 7, 9, //
    8, 5, 7, 9, 3, 4, 1, 2, 6, //
    1, 9, 2, 8, 7, 6, 3, 4, 5, //
];

/// The board that keeps the cells of `SOLUTION` for which `keep(x, y)` holds.
fn from_solution(keep: impl Fn(usize, usize) -> bool) -> Redoku {
    let mut redoku = Redoku::new();
    for y in 0..9 {
        for x in 0..9 {
            if keep(x, y) {
                assert!(redoku.place_if_valid(x, y, Some(CellValue::from_usize(SOLUTION[9 * y + x]))));
            }
        }
    }
    redoku
}

/// The board that keeps the cells of `SOLUTION` at the given indices (`9 * y + x`).
fn from_indices(kept: &[usize]) -> Redoku {
    from_solution(|x, y| kept.contains(&(9 * y + x)))
}

fn naked_single_board() -> Redoku {
    let mut redoku = Redoku::new();

    assert!(redoku.place_if_valid(0, 1, Some(Six)));
    assert!(redoku.place_if_valid(0, 3, Some(Four)));
    assert!(redoku.place_if_valid(0, 4, Some(Five)));
    assert!(redoku.place_if_valid(0, 7, Some(Eight)));

    assert!(redoku.place_if_valid(1, 0, Some(Three)));
    assert!(redoku.place_if_valid(1, 4, Some(Six)));
    assert!(redoku.place_if_valid(1, 5, Some(Two)));
    assert!(redoku.place_if_valid(1, 7, Some(Five)));
    assert!(redoku.place_if_valid(1, 8, Some(Nine)));

    assert!(redoku.place_if_valid(2, 0, Some(Four)));
    assert!(redoku.place_if_valid(2, 2, Some(One)));
    assert!(redoku.place_if_valid(2, 3, Some(Nine)));
    assert!(redoku.place_if_valid(2, 7, Some(Seven)));

    assert!(redoku.place_if_valid(3, 5, Some(Five)));
    assert!(redoku.place_if_valid(3, 6, Some(Two)));
    assert!(redoku.place_if_valid(3, 7, Some(Nine)));

    assert!(redoku.place_if_valid(4, 2, Some(Two)));
    assert!(redoku.place_if_valid(4, 3, Some(Eight)));
    assert!(redoku.place_if_valid(4, 5, Some(Six)));
    assert!(redoku.place_if_valid(4, 6, Some(One)));

    assert!(redoku.place_if_valid(5, 1, Some(Eight)));
    assert!(redoku.place_if_valid(5, 2, Some(Seven)));
    assert!(redoku.place_if_valid(5, 3, Some(Three)));

    assert!(redoku.place_if_valid(6, 1, Some(Two)));
    assert!(redoku.place_if_valid(6, 5, Some(Four)));
    assert!(redoku.place_if_valid(6, 6, Some(Eight)));
    assert!(redoku.place_if_valid(6, 8, Some(Three)));

    assert!(redoku.place_if_valid(7, 0, Some(Nine)));
    assert!(redoku.place_if_valid(7, 1, Some(One)));
    assert!(redoku.place_if_valid(7, 3, Some(Five)));
    assert!(redoku.place_if_valid(7, 4, Some(Eight)));
    assert!(redoku.place_if_valid(7, 8, Some(Four)));

    assert!(redoku.place_if_valid(8, 1, Some(Four)));
    assert!(redoku.place_if_valid(8, 4, Some(Seven)));
    assert!(redoku.place_if_valid(8, 5, Some(One)));
    assert!(redoku.place_if_valid(8, 7, Some(Six)));

    redoku
}

fn lone_ranger_board() -> Redoku {
    let mut redoku = Redoku::new();

    assert!(redoku.place_if_valid(0, 0, Some(Four)));
    assert!(redoku.place_if_valid(0, 2, Some(Five)));
    assert!(redoku.place_if_valid(0, 3, Some(Seven)));
    assert!(redoku.place_if_valid(0, 4, Some(Six)));
    assert!(redoku.place_if_valid(0, 5, Some(Three)));
    assert!(redoku.place_if_valid(0, 7, Some(Nine)));
    assert!(redoku.place_if_valid(0, 8, Some(Two)));

    assert!(redoku.place_if_valid(1, 5, Some(Eight)));
    assert!(redoku.place_if_valid(1, 6, Some(Five)));

    assert!(redoku.place_if_valid(2, 0, Some(Nine)));
    assert!(redoku.place_if_valid(2, 1, Some(Seven)));
    assert!(redoku.place_if_valid(2, 2, Some(Eight)));
    assert!(redoku.place_if_valid(2, 3, Some(Five)));
    assert!(redoku.place_if_valid(2, 4, Some(Four)));
    assert!(redoku.place_if_valid(2, 6, Some(Six)));

    assert!(redoku.place_if_valid(3, 0, Some(Eight)));
    assert!(redoku.place_if_valid(3, 1, Some(Four)));
    assert!(redoku.place_if_valid(3, 4, Some(Two)));
    assert!(redoku.place_if_valid(3, 6, Some(Nine)));

    assert!(redoku.place_if_valid(4, 0, Some(Five)));
    assert!(redoku.place_if_valid(4, 3, Some(Six)));
    assert!(redoku.place_if_valid(4, 5, Some(Seven)));
    assert!(redoku.place_if_valid(4, 6, Some(Four)));
    assert!(redoku.place_if_valid(4, 7, Some(Two)));

    assert!(redoku.place_if_valid(5, 0, Some(Six)));
    assert!(redoku.place_if_valid(5, 1, Some(Two)));
    assert!(redoku.place_if_valid(5, 2, Some(Seven)));
    assert!(redoku.place_if_valid(5, 4, Some(Three)));
    assert!(redoku.place_if_valid(5, 6, Some(One)));
    assert!(redoku.place_if_valid(5, 7, Some(Eight)));

    assert!(redoku.place_if_valid(6, 0, Some(Seven)));
    assert!(redoku.place_if_valid(6, 1, Some(Six)));
    assert!(redoku.place_if_valid(6, 4, Some(Five)));

    assert!(redoku.place_if_valid(7, 1, Some(Eight)));
    assert!(redoku.place_if_valid(7, 7, Some(Five)));

    assert!(redoku.place_if_valid(8, 2, Some(Four)));
    assert!(redoku.place_if_valid(8, 5, Some(Six)));
    assert!(redoku.place_if_valid(8, 8, Some(Eight)));

    redoku
}

#[test]
fn test_column_row_block_elimination() {
    let redoku = naked_single_board();

    assert!(redoku.empty_cells() == 45);
    let mut cloned = redoku.clone();

    assert!(try_row_col_block_elimination(&mut cloned));
    assert!(cloned.empty_cells() == 13);

    assert!(try_row_col_block_elimination(&mut cloned));
    assert!(cloned.empty_cells() == 2);

    assert!(try_row_col_block_elimination(&mut cloned));
    assert!(cloned.empty_cells() == 0);

    // the original is untouched, and the completed board is the known solution
    assert!(redoku.empty_cells() == 45);
    for y in 0..9 {
        for x in 0..9 {
            assert_eq!(cloned[(x, y)], Some(CellValue::from_usize(SOLUTION[9 * y + x])));
        }
    }
}

#[test]
fn test_lone_ranger() {
    let redoku = lone_ranger_board();

    assert!(redoku.empty_cells() == 43);
    let mut cloned = redoku.clone();

    assert!(try_lone_ranger(&mut cloned));
    assert!(cloned.empty_cells() == 35);

    assert!(try_lone_ranger(&mut cloned));
    assert!(cloned.empty_cells() == 28);

    assert!(try_lone_ranger(&mut cloned));
    assert!(cloned.empty_cells() == 23);
}

#[test]
fn naked_single_fills_the_one_forced_cell() {
    let mut redoku = from_solution(|x, y| !(x == 4 && y == 4));
    assert_eq!(redoku.empty_cells(), 1);
    assert_eq!(redoku[(4, 4)], None);

    assert!(try_row_col_block_elimination(&mut redoku));
    assert_eq!(redoku[(4, 4)], Some(Four));
    assert_eq!(redoku.empty_cells(), 0);

    // nothing left to force: no progress and no change
    let before = redoku.clone();
    assert!(!try_row_col_block_elimination(&mut redoku));
    assert!(redoku == before);
}

#[test]
fn naked_single_without_progress_leaves_board_unchanged() {
    let mut redoku = Redoku::new();
    assert!(redoku.place_if_valid(0, 0, Some(One)));
    let before = redoku.clone();
    assert!(!try_row_col_block_elimination(&mut redoku));
    assert!(redoku == before);
    assert!(!try_lone_ranger(&mut redoku));
    assert!(redoku == before);
}

#[test]
fn twins_pass_never_progresses() {
    let mut redoku = lone_ranger_board();
    let before = redoku.clone();
    assert!(!try_look_for_twins(&mut redoku));
    assert!(redoku == before);
}

#[test]
fn givens_score_buckets() {
    // 36 givens, 45 empty cells
    let redoku = naked_single_board();
    assert_eq!(redoku.empty_cells(), 45);
    assert_eq!(score_cell_total_count(&redoku), 2);

    // 28 givens, 53 empty cells
    let redoku = from_solution(|x, y| 9 * y + x < 28);
    assert_eq!(redoku.empty_cells(), 53);
    assert_eq!(score_cell_total_count(&redoku), 4);

    // 53 givens, 28 empty cells
    let redoku = from_solution(|x, y| 9 * y + x < 53);
    assert_eq!(redoku.empty_cells(), 28);
    assert_eq!(score_cell_total_count(&redoku), 1);

    let expected = [(22, 5), (27, 5), (28, 4), (31, 4), (32, 3), (35, 3), (36, 2), (49, 2), (50, 1), (81, 1)];
    for (givens, score) in expected {
        let redoku = from_solution(|x, y| 9 * y + x < givens);
        assert_eq!(81 - redoku.empty_cells(), givens);
        assert_eq!(score_cell_total_count(&redoku), score);
    }
}

#[test]
fn row_column_score_buckets() {
    // full board: nine givens everywhere
    assert_eq!(score_cell_row_column_count(&from_solution(|_, _| true)), 1);
    // one empty row
    assert_eq!(score_cell_row_column_count(&from_solution(|_, y| y != 3)), 5);
    // the least filled column keeps k cells
    let expected = [(1, 4), (2, 4), (3, 3), (4, 2), (5, 1), (8, 1)];
    for (k, score) in expected {
        let redoku = from_solution(|x, y| x != 6 || y < k);
        assert_eq!(score_cell_row_column_count(&redoku), score);
    }
}

#[test]
fn ladder_heights() {
    // naked singles alone solve it
    let very_easy = from_solution(|x, y| (x + y) % 9 != 0 && (x + y) % 9 != 2 && (x + y) % 9 != 5);
    assert_eq!(score_human_solving_techniques(&very_easy), 1);
    // hidden singles progress between the naked-single passes
    assert_eq!(score_human_solving_techniques(&naked_single_board()), 2);
    // a full board makes no progress at all
    assert_eq!(score_human_solving_techniques(&from_solution(|_, _| true)), 5);
    // hidden singles are needed
    assert_eq!(score_human_solving_techniques(&lone_ranger_board()), 2);
}

#[test]
fn test_grade_very_easy_redoku() {
    let redoku = from_solution(|x, y| (x + y) % 9 != 0 && (x + y) % 9 != 2 && (x + y) % 9 != 5);

    assert!(redoku.grade_difficulty() == Difficulty::VeryEasy);
}

#[test]
fn test_grade_easy_redoku() {
    let redoku = from_indices(&[
        0, 2, 4, 5, 6, 10, 11, 12, 16, 18, 21, 23, 24, 25, 26, 27, 28, 33, 34, 37, 40, 41, 44, 47,
        48, 49, 51, 52, 54, 55, 57, 60, 62, 66, 67, 71, 72, 75, 78, 79,
    ]);

    assert!(redoku.grade_difficulty() == Difficulty::Easy);
}

#[test]
fn test_grade_medium_redoku() {
    let redoku = from_indices(&[
        4, 5, 6, 12, 17, 18, 21, 27, 30, 32, 33, 35, 36, 38, 39, 43, 45, 46, 51, 53, 54, 57, 61, 62,
        64, 65, 69, 76,
    ]);

    assert!(redoku.grade_difficulty() == Difficulty::Medium);
}

#[test]
fn test_grade_hard_redoku() {
    let redoku = from_indices(&[
        0, 1, 3, 6, 8, 12, 15, 20, 26, 29, 32, 34, 37, 48, 49, 55, 57, 60, 62, 63, 65, 72, 74, 75,
    ]);

    assert!(redoku.grade_difficulty() == Difficulty::Hard);
}

#[test]
fn end_to_end_very_easy_components() {
    let redoku = from_solution(|x, y| (x + y) % 9 != 0 && (x + y) % 9 != 2 && (x + y) % 9 != 5);
    assert!(81 - redoku.empty_cells() >= 50);
    assert_eq!(score_cell_total_count(&redoku), 1);
    assert_eq!(score_cell_row_column_count(&redoku), 1);
    assert_eq!(score_human_solving_techniques(&redoku), 1);
    assert_eq!(redoku.grade_difficulty(), Difficulty::VeryEasy);
}

#[test]
fn grading_clones_is_stable_and_leaves_board_alone() {
    let redoku = lone_ranger_board();
    let empty_before = redoku.empty_cells();
    let first = redoku.clone().grade_difficulty();
    let second = redoku.clone().grade_difficulty();
    assert_eq!(first, second);
    assert_eq!(redoku.grade_difficulty(), first);
    assert_eq!(redoku.empty_cells(), empty_before);
    assert_eq!(first, Difficulty::Easy);
}

#[test]
fn weighted_score_examples() {
    // sub-scores 2, 4, 2 give 0.8 + 0.8 + 0.4 = 2.0
    let redoku = lone_ranger_board();
    assert_eq!(score_cell_total_count(&redoku), 2);
    assert_eq!(score_cell_row_column_count(&redoku), 4);
    assert_eq!(score_human_solving_techniques(&redoku), 2);
    assert_eq!(redoku.grade_difficulty(), Difficulty::Easy);
}

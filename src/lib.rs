//! Sudoku board model with synchronized row, column and block indices, and a
//! difficulty grader that replays human solving techniques on a copy.

pub mod value;
pub mod redoku;
pub mod grader;

pub use grader::{
    score_cell_row_column_count, score_cell_total_count, score_human_solving_techniques,
    try_lone_ranger, try_look_for_twins, try_row_col_block_elimination, Difficulty, RedokuGrader,
};
pub use redoku::Redoku;
pub use value::{CellValue, CellValueSet};

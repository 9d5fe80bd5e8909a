//! Counting and selection rules behind classification metrics, descriptive
//! statistics and byte distributions, and the text layout of numeric input.
//!
//! The metrics and statistics read integers only: counts, positions, class
//! identifiers, and keys that order scores the way the scores themselves are
//! ordered. Rates leave the crate as exact fractions of two counts. The text
//! layer reads numbers of whatever type the caller names.

pub mod bytes;
pub mod matrix;
pub mod parse;
pub mod rates;
pub mod ratio;
pub mod stats;
pub mod sweep;
pub mod text;

pub use bytes::{occupied_bins, to_byte_histogram};
pub use matrix::{
    class_count, confusion_matrix, decision_rule, DecisionRule, MatrixError, Prediction,
};
pub use parse::{
    collect_matrix, collect_pairs, collect_row, collect_vector, parse_row, read_rows, split_label,
    str_to_vector, to_matrix, to_tuple, to_vector, ParseError, Row,
};
pub use rates::{confusion_matrix_stats, CMatrixStats};
pub use ratio::Ratio;
pub use stats::{median, mode, Median, StatsError};
pub use sweep::{
    threshold_grid, threshold_row, threshold_rows, threshold_table_stats, Outcome, ScoredPair,
    ThresholdRow,
};

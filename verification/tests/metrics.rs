use st_core::{
    class_count, confusion_matrix, confusion_matrix_stats, decision_rule, threshold_grid,
    threshold_row, threshold_rows, threshold_table_stats, DecisionRule, MatrixError, Outcome,
    Prediction, Ratio, ScoredPair,
};

/// A key that orders finite and infinite scores as the scores are ordered.
fn key(x: f32) -> Option<i64> {
    if x.is_nan() {
        return None;
    }
    let bits = (x + 0.0).to_bits() as i32;
    Some(if bits < 0 { (bits ^ 0x7fff_ffff) as i64 } else { bits as i64 })
}

fn label_key(c: f32) -> u32 {
    if c.is_nan() {
        f32::NAN.to_bits()
    } else {
        c.to_bits()
    }
}

fn outcome(a: f32) -> Outcome {
    if a == 1.0 {
        Outcome::Positive
    } else if a == 0.0 {
        Outcome::Negative
    } else {
        Outcome::Other
    }
}

fn scored(pairs: &[(f32, f32)]) -> Vec<ScoredPair> {
    pairs.iter().map(|&(p, a)| ScoredPair { score: key(p), actual: outcome(a) }).collect()
}

fn matrix_of(pairs: &[(f32, f32)], threshold: Option<f32>) -> Result<Vec<Vec<u32>>, MatrixError> {
    let labels: Vec<u32> = pairs.iter().map(|p| label_key(p.1)).collect();
    let size = class_count(&labels);
    let rule = decision_rule(threshold.is_some(), size);
    let cells: Vec<Prediction> = pairs
        .iter()
        .map(|&(p, c)| {
            let predicted = match rule {
                DecisionRule::Threshold => (p + (1.0 - threshold.unwrap_or(0.0))) as usize,
                DecisionRule::RoundHalf => (p + 0.5) as usize,
                DecisionRule::Truncate => p as usize,
            };
            Prediction { predicted, actual: c as usize }
        })
        .collect();
    confusion_matrix(&cells, size)
}

fn ratio(numerator: u64, denominator: u64) -> Ratio {
    Ratio { numerator, denominator }
}

#[test]
fn class_count_counts_distinct_labels() {
    assert_eq!(class_count(&vec![]), 0);
    assert_eq!(class_count(&vec![7]), 1);
    assert_eq!(class_count(&vec![1, 0, 1, 0, 1]), 2);
    assert_eq!(class_count(&vec![3, 2, 1, 3, 2, 1, 0]), 4);
}

#[test]
fn class_count_tells_signed_zeros_apart() {
    let labels = vec![label_key(0.0), label_key(-0.0), label_key(0.0)];
    assert_eq!(class_count(&labels), 2);
}

#[test]
fn decision_rule_prefers_the_threshold() {
    assert_eq!(decision_rule(true, 2), DecisionRule::Threshold);
    assert_eq!(decision_rule(true, 5), DecisionRule::Threshold);
    assert_eq!(decision_rule(true, 0), DecisionRule::Threshold);
}

#[test]
fn decision_rule_rounds_for_two_classes() {
    assert_eq!(decision_rule(false, 2), DecisionRule::RoundHalf);
}

#[test]
fn decision_rule_truncates_otherwise() {
    assert_eq!(decision_rule(false, 0), DecisionRule::Truncate);
    assert_eq!(decision_rule(false, 1), DecisionRule::Truncate);
    assert_eq!(decision_rule(false, 3), DecisionRule::Truncate);
}

#[test]
fn confusion_matrix_two_classes_round_at_one_half() {
    let pairs = [(0.9, 1.0), (0.1, 0.0), (0.6, 1.0), (0.4, 0.0)];
    assert_eq!(matrix_of(&pairs, None), Ok(vec![vec![2, 0], vec![0, 2]]));
}

#[test]
fn confusion_matrix_counts_every_pair_once() {
    let pairs = [(0.9, 1.0), (0.1, 0.0), (0.6, 0.0), (0.4, 1.0), (0.7, 1.0)];
    let matrix = matrix_of(&pairs, None).unwrap();
    assert_eq!(matrix, vec![vec![1, 1], vec![1, 2]]);
    let total: u32 = matrix.iter().map(|row| row.iter().sum::<u32>()).sum();
    assert_eq!(total as usize, pairs.len());
}

#[test]
fn confusion_matrix_with_threshold() {
    let pairs = [(0.9, 1.0), (0.1, 0.0), (0.6, 1.0), (0.4, 0.0)];
    assert_eq!(matrix_of(&pairs, Some(0.75)), Ok(vec![vec![2, 1], vec![0, 1]]));
    assert_eq!(matrix_of(&pairs, Some(0.25)), Ok(vec![vec![1, 0], vec![1, 2]]));
}

#[test]
fn confusion_matrix_truncates_for_three_classes() {
    let pairs = [(0.9, 0.0), (1.2, 1.0), (2.7, 2.0), (1.9, 2.0)];
    assert_eq!(
        matrix_of(&pairs, None),
        Ok(vec![vec![1, 0, 0], vec![0, 1, 1], vec![0, 0, 1]])
    );
}

#[test]
fn confusion_matrix_of_nothing_is_empty() {
    assert_eq!(confusion_matrix(&vec![], 0), Ok(vec![]));
    assert_eq!(confusion_matrix(&vec![], 2), Ok(vec![vec![0, 0], vec![0, 0]]));
}

#[test]
fn confusion_matrix_reports_a_predicted_class_out_of_range() {
    let cells = vec![
        Prediction { predicted: 0, actual: 1 },
        Prediction { predicted: 2, actual: 5 },
        Prediction { predicted: 9, actual: 0 },
    ];
    assert_eq!(confusion_matrix(&cells, 2), Err(MatrixError::PredictedOutOfRange { pair: 1 }));
}

#[test]
fn confusion_matrix_reports_an_actual_class_out_of_range() {
    let cells = vec![
        Prediction { predicted: 1, actual: 1 },
        Prediction { predicted: 1, actual: 2 },
    ];
    assert_eq!(confusion_matrix(&cells, 2), Err(MatrixError::ActualOutOfRange { pair: 1 }));
}

#[test]
fn confusion_matrix_fails_where_labels_have_gaps() {
    let pairs = [(0.2, 0.0), (2.2, 2.0)];
    assert_eq!(matrix_of(&pairs, None), Err(MatrixError::PredictedOutOfRange { pair: 1 }));
}

#[test]
fn confusion_matrix_stats_two_classes() {
    let stats = confusion_matrix_stats(&vec![vec![5, 2], vec![1, 10]]);
    assert_eq!(stats.len(), 2);
    assert_eq!(stats[0].label, 0);
    assert_eq!(stats[0].tpr, ratio(5, 6));
    assert_eq!(stats[0].fpr, ratio(2, 12));
    assert_eq!(stats[0].fnr, ratio(1, 6));
    assert_eq!(stats[0].tnr, ratio(10, 11));
    assert_eq!(stats[1].label, 1);
    assert_eq!(stats[1].tpr, ratio(10, 12));
    assert_eq!(stats[1].fpr, ratio(1, 6));
    assert_eq!(stats[1].fnr, ratio(2, 12));
    assert_eq!(stats[1].tnr, ratio(5, 7));
}

#[test]
fn confusion_matrix_stats_as_floats() {
    let stats = confusion_matrix_stats(&vec![vec![5, 2], vec![1, 10]]);
    let tpr = stats[0].tpr.numerator as f32 / stats[0].tpr.denominator as f32;
    let fpr = stats[0].fpr.numerator as f32 / stats[0].fpr.denominator as f32;
    assert!((tpr - 5.0 / 6.0).abs() < 1e-6);
    assert!((fpr - 2.0 / 12.0).abs() < 1e-6);
}

#[test]
fn confusion_matrix_stats_three_classes_in_order() {
    let stats = confusion_matrix_stats(&vec![vec![3, 1, 0], vec![2, 4, 1], vec![0, 5, 6]]);
    let labels: Vec<usize> = stats.iter().map(|s| s.label).collect();
    assert_eq!(labels, vec![0, 1, 2]);
    // class 1: TP 4, FP 2 + 1, FN 1 + 5, TN 22 - 4 - 3 - 6
    assert_eq!(stats[1].tpr, ratio(4, 10));
    assert_eq!(stats[1].fpr, ratio(3, 12));
    assert_eq!(stats[1].fnr, ratio(6, 10));
    assert_eq!(stats[1].tnr, ratio(9, 15));
}

#[test]
fn confusion_matrix_stats_undefined_rates() {
    let stats = confusion_matrix_stats(&vec![vec![0, 0], vec![0, 0]]);
    for s in stats.iter() {
        assert_eq!(s.tpr, ratio(0, 0));
        assert_eq!(s.fpr, ratio(0, 0));
        assert_eq!(s.fnr, ratio(0, 0));
        assert_eq!(s.tnr, ratio(0, 0));
        assert!(!s.tpr.defined());
        assert!((s.tpr.numerator as f32 / s.tpr.denominator as f32).is_nan());
    }
    assert_eq!(confusion_matrix_stats(&vec![]).len(), 0);
}

#[test]
fn confusion_matrix_stats_of_a_built_matrix() {
    let pairs = [(0.9, 1.0), (0.1, 0.0), (0.6, 0.0), (0.4, 1.0), (0.7, 1.0)];
    let stats = confusion_matrix_stats(&matrix_of(&pairs, None).unwrap());
    // matrix [[1, 1], [1, 2]]
    assert_eq!(stats[0].tpr, ratio(1, 2));
    assert_eq!(stats[1].tpr, ratio(2, 3));
    assert_eq!(stats[1].tnr, ratio(1, 2));
}

#[test]
fn threshold_grid_has_twenty_steps() {
    let grid = threshold_grid();
    assert_eq!(grid.len(), 20);
    assert_eq!(grid[0], 5);
    assert_eq!(grid[1], 10);
    assert_eq!(grid[19], 100);
    let want: Vec<u32> = (1..=20).map(|k| 5 * k).collect();
    assert_eq!(grid, want);
}

#[test]
fn threshold_row_counts_the_four_buckets() {
    let pairs = scored(&[(0.9, 1.0), (0.8, 0.0), (0.3, 1.0), (0.1, 0.0)]);
    let cutoff = key(0.5).unwrap();
    let row = threshold_row(&pairs, cutoff);
    assert_eq!(row.threshold, cutoff);
    assert_eq!(row.precision, ratio(1, 2));
    assert_eq!(row.recall, ratio(1, 2));
    assert_eq!(row.f1, ratio(2, 4));
    assert_eq!(row.fpr, ratio(1, 2));
}

#[test]
fn threshold_row_score_equal_to_cutoff_is_positive() {
    let pairs = scored(&[(0.5, 1.0), (0.5, 0.0)]);
    let row = threshold_row(&pairs, key(0.5).unwrap());
    assert_eq!(row.precision, ratio(1, 2));
    assert_eq!(row.recall, ratio(1, 1));
    assert_eq!(row.fpr, ratio(1, 1));
    assert_eq!(row.f1, ratio(2, 3));
}

#[test]
fn threshold_row_leaves_out_other_classes_and_unordered_scores() {
    let pairs = scored(&[(0.9, 2.0), (f32::NAN, 1.0), (0.9, 1.0), (0.2, 0.5), (-0.0, 0.0)]);
    let row = threshold_row(&pairs, key(0.0).unwrap());
    assert_eq!(row.precision, ratio(1, 2));
    assert_eq!(row.recall, ratio(1, 1));
    assert_eq!(row.fpr, ratio(1, 1));
}

#[test]
fn threshold_row_without_true_positive_has_no_f1() {
    let pairs = scored(&[(0.9, 0.0), (0.2, 1.0)]);
    let row = threshold_row(&pairs, key(0.5).unwrap());
    assert_eq!(row.precision, ratio(0, 1));
    assert_eq!(row.recall, ratio(0, 1));
    assert_eq!(row.f1, ratio(0, 0));
    assert_eq!(row.fpr, ratio(1, 1));
    let nothing = threshold_row(&vec![], 0);
    assert_eq!(nothing.precision, ratio(0, 0));
    assert_eq!(nothing.f1, ratio(0, 0));
}

#[test]
fn threshold_row_f1_is_the_harmonic_mean() {
    let pairs = scored(&[(0.9, 1.0), (0.8, 1.0), (0.7, 0.0), (0.3, 1.0), (0.1, 0.0)]);
    let row = threshold_row(&pairs, key(0.5).unwrap());
    let p = row.precision.numerator as f64 / row.precision.denominator as f64;
    let r = row.recall.numerator as f64 / row.recall.denominator as f64;
    let f1 = row.f1.numerator as f64 / row.f1.denominator as f64;
    assert_eq!(row.f1, ratio(4, 6));
    assert!((f1 - 2.0 * p * r / (p + r)).abs() < 1e-12);
}

#[test]
fn threshold_table_has_one_row_for_each_step() {
    let pairs = scored(&[(0.9, 1.0), (0.8, 0.0), (0.3, 1.0), (0.1, 0.0)]);
    let grid = threshold_grid();
    let cutoffs: Vec<i64> = grid.iter().map(|&h| key(h as f32 / 100.0).unwrap()).collect();
    let rows = threshold_table_stats(&pairs, &cutoffs);
    assert_eq!(rows.len(), 20);
    for k in 0..20 {
        assert_eq!(rows[k].threshold, cutoffs[k]);
        assert_eq!(rows[k], threshold_row(&pairs, cutoffs[k]));
    }
    // at 0.05 everything is positive, at 1.00 nothing is
    assert_eq!(rows[0].recall, ratio(2, 2));
    assert_eq!(rows[0].fpr, ratio(2, 2));
    assert_eq!(rows[19].recall, ratio(0, 2));
    assert_eq!(rows[19].precision, ratio(0, 0));
}

#[test]
fn threshold_table_all_positive_above_first_step() {
    let pairs = scored(&[(0.05, 1.0), (0.5, 1.0), (1.0, 1.0)]);
    let first = key(5.0 / 100.0).unwrap();
    let rows = threshold_rows(&pairs, &vec![first]);
    assert_eq!(rows.len(), 1);
    assert_eq!(rows[0].recall, ratio(3, 3));
    assert_eq!(rows[0].precision, ratio(3, 3));
    assert_eq!(rows[0].fpr, ratio(0, 0));
}

#[test]
fn threshold_rows_without_cutoffs_are_none() {
    let pairs = scored(&[(0.9, 1.0)]);
    assert_eq!(threshold_rows(&pairs, &vec![]).len(), 0);
}

#[test]
fn threshold_rows_follow_the_cutoffs() {
    let pairs = scored(&[(0.9, 1.0), (0.8, 0.0), (0.3, 1.0), (0.1, 0.0)]);
    let cutoffs = vec![key(0.85).unwrap(), key(0.2).unwrap(), key(0.5).unwrap()];
    let rows = threshold_rows(&pairs, &cutoffs);
    assert_eq!(rows.len(), 3);
    assert_eq!(rows[0].recall, ratio(1, 2));
    assert_eq!(rows[0].fpr, ratio(0, 2));
    assert_eq!(rows[1].recall, ratio(2, 2));
    assert_eq!(rows[1].fpr, ratio(1, 2));
    assert_eq!(rows[2], threshold_row(&pairs, cutoffs[2]));
}

#[test]
fn threshold_table_has_twenty_rows_of_no_pairs_too() {
    let keys: Vec<i64> =
        threshold_grid().iter().map(|&h| key(h as f32 / 100.0).unwrap()).collect();
    let rows = threshold_table_stats(&vec![], &keys);
    assert_eq!(rows.len(), 20);
    assert!(rows.iter().all(|r| r.precision == ratio(0, 0) && r.fpr == ratio(0, 0)));
}

#[test]
fn threshold_table_recall_does_not_rise() {
    let pairs = scored(&[(0.95, 1.0), (0.5, 1.0), (0.45, 0.0), (0.2, 1.0), (0.7, 0.0)]);
    let keys: Vec<i64> =
        threshold_grid().iter().map(|&h| key(h as f32 / 100.0).unwrap()).collect();
    let rows = threshold_table_stats(&pairs, &keys);
    for k in 1..rows.len() {
        assert_eq!(rows[k].recall.denominator, 3);
        assert_eq!(rows[k].fpr.denominator, 2);
        assert!(rows[k].recall.numerator <= rows[k - 1].recall.numerator);
        assert!(rows[k].fpr.numerator <= rows[k - 1].fpr.numerator);
    }
}

#[test]
fn ratio_constructors() {
    assert_eq!(Ratio::new(3, 4), ratio(3, 4));
    assert_eq!(Ratio::share(3, 1), ratio(3, 4));
    assert_eq!(Ratio::undefined(), ratio(0, 0));
    assert!(Ratio::new(0, 4).defined());
    assert!(!Ratio::undefined().defined());
}

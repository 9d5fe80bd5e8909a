//! Confusion matrices: how many classes there are, which rule turns a score
//! into a predicted class, and the count of each pair of predicted and actual
//! class.

use vstd::prelude::*;
use std::collections::HashSet;
use crate::rates::{grand_total, is_square, row_sum, rows_sum, table};

verus! {

/// How a score becomes a predicted class.
#[derive(Clone, Copy, Debug, PartialEq, Eq)]
pub enum DecisionRule {
    /// A threshold `t` was given: the score plus `1 - t`, rounded down.
    Threshold,
    /// Two classes and no threshold: the score plus one half, rounded down.
    RoundHalf,
    /// Any other number of classes and no threshold: the score rounded down.
    Truncate,
}

/// One observation, as the row and the column of the cell that counts it.
#[derive(Clone, Copy, Debug, PartialEq, Eq)]
pub struct Prediction {
    pub predicted: usize,
    pub actual: usize,
}

/// Why a matrix could not be built: the observation at position `pair` names
/// a class that the matrix has no row, or no column, for.
#[derive(Clone, Copy, Debug, PartialEq, Eq)]
pub enum MatrixError {
    PredictedOutOfRange { pair: usize },
    ActualOutOfRange { pair: usize },
}

/// The rule that applies: a given threshold first, then the two-class rule,
/// then truncation.
pub open spec fn rule_for(explicit_threshold: bool, classes: int) -> DecisionRule {
    if explicit_threshold {
        DecisionRule::Threshold
    } else if classes == 2 {
        DecisionRule::RoundHalf
    } else {
        DecisionRule::Truncate
    }
}

/// Both classes of the observation lie within a matrix of `size` classes.
pub open spec fn in_range(p: Prediction, size: int) -> bool {
    p.predicted < size && p.actual < size
}

/// How many of the first `n` observations are counted in cell (`r`, `c`).
pub open spec fn cell_count(pairs: Seq<Prediction>, r: int, c: int, n: int) -> int
    decreases n,
{
    if n <= 0 {
        0
    } else {
        cell_count(pairs, r, c, n - 1) + if pairs[n - 1].predicted == r && pairs[n - 1].actual
            == c {
            1int
        } else {
            0int
        }
    }
}

/// `m` is the matrix of `size` classes that counts each of `pairs` once.
pub open spec fn is_confusion_matrix(m: Seq<Seq<u32>>, pairs: Seq<Prediction>, size: int) -> bool {
    &&& m.len() == size
    &&& is_square(m)
    &&& forall|r: int, c: int|
        0 <= r < size && 0 <= c < size ==> (#[trigger] m[r][c]) == cell_count(
            pairs,
            r,
            c,
            pairs.len() as int,
        )
}

/// `e` reports the first observation that is out of range, and the row
/// before the column.
pub open spec fn is_first_fault(e: MatrixError, pairs: Seq<Prediction>, size: int) -> bool {
    match e {
        MatrixError::PredictedOutOfRange { pair } => {
            &&& pair < pairs.len()
            &&& forall|j: int| 0 <= j < pair ==> in_range(#[trigger] pairs[j], size)
            &&& pairs[pair as int].predicted >= size
        },
        MatrixError::ActualOutOfRange { pair } => {
            &&& pair < pairs.len()
            &&& forall|j: int| 0 <= j < pair ==> in_range(#[trigger] pairs[j], size)
            &&& pairs[pair as int].predicted < size
            &&& pairs[pair as int].actual >= size
        },
    }
}

proof fn lemma_cell_count_bounds(pairs: Seq<Prediction>, r: int, c: int, n: int)
    requires
        0 <= n,
    ensures
        0 <= cell_count(pairs, r, c, n) <= n,
    decreases n,
{
    if n > 0 {
        lemma_cell_count_bounds(pairs, r, c, n - 1);
    }
}

/// The entries of a confusion matrix add up to the number of observations.
pub proof fn lemma_matrix_counts_every_pair(m: Seq<Seq<u32>>, pairs: Seq<Prediction>, size: int)
    requires
        is_confusion_matrix(m, pairs, size),
        forall|i: int| 0 <= i < pairs.len() ==> in_range(#[trigger] pairs[i], size),
    ensures
        grand_total(m) == pairs.len(),
{
    lemma_rows_of_counts(m, pairs, size, size);
    lemma_counted_rows_total(pairs, size, pairs.len() as int);
}

/// The sum of the first `n` entries of row `r` of the counts of the first `k` observations.
spec fn counted_row_sum(pairs: Seq<Prediction>, r: int, k: int, n: int) -> int
    decreases n,
{
    if n <= 0 {
        0
    } else {
        counted_row_sum(pairs, r, k, n - 1) + cell_count(pairs, r, n - 1, k)
    }
}

/// The sum of the first `n` rows of the counts of the first `k` observations.
spec fn counted_rows_sum(pairs: Seq<Prediction>, size: int, k: int, n: int) -> int
    decreases n,
{
    if n <= 0 {
        0
    } else {
        counted_rows_sum(pairs, size, k, n - 1) + counted_row_sum(pairs, n - 1, k, size)
    }
}

proof fn lemma_counted_row_step(pairs: Seq<Prediction>, r: int, k: int, n: int)
    requires
        0 < k <= pairs.len(),
        0 <= n,
    ensures
        counted_row_sum(pairs, r, k, n) == counted_row_sum(pairs, r, k - 1, n) + if pairs[k
            - 1].predicted == r && pairs[k - 1].actual < n {
            1int
        } else {
            0int
        },
    decreases n,
{
    if n > 0 {
        lemma_counted_row_step(pairs, r, k, n - 1);
    }
}

proof fn lemma_counted_rows_step(pairs: Seq<Prediction>, size: int, k: int, n: int)
    requires
        0 < k <= pairs.len(),
        0 <= n,
        0 <= size,
    ensures
        counted_rows_sum(pairs, size, k, n) == counted_rows_sum(pairs, size, k - 1, n) + if pairs[k
            - 1].predicted < n && pairs[k - 1].actual < size {
            1int
        } else {
            0int
        },
    decreases n,
{
    if n > 0 {
        lemma_counted_rows_step(pairs, size, k, n - 1);
        lemma_counted_row_step(pairs, n - 1, k, size);
    }
}

proof fn lemma_counted_rows_total(pairs: Seq<Prediction>, size: int, k: int)
    requires
        0 <= k <= pairs.len(),
        0 <= size,
        forall|i: int| 0 <= i < pairs.len() ==> in_range(#[trigger] pairs[i], size),
    ensures
        counted_rows_sum(pairs, size, k, size) == k,
    decreases k,
{
    if k > 0 {
        lemma_counted_rows_total(pairs, size, k - 1);
        lemma_counted_rows_step(pairs, size, k, size);
        assert(in_range(pairs[k - 1], size));
    } else {
        lemma_counted_rows_empty(pairs, size, size);
    }
}

proof fn lemma_counted_row_empty(pairs: Seq<Prediction>, r: int, n: int)
    ensures
        counted_row_sum(pairs, r, 0, n) == 0,
    decreases n,
{
    if n > 0 {
        lemma_counted_row_empty(pairs, r, n - 1);
    }
}

proof fn lemma_counted_rows_empty(pairs: Seq<Prediction>, size: int, n: int)
    ensures
        counted_rows_sum(pairs, size, 0, n) == 0,
    decreases n,
{
    if n > 0 {
        lemma_counted_rows_empty(pairs, size, n - 1);
        lemma_counted_row_empty(pairs, n - 1, size);
    }
}

proof fn lemma_row_of_counts(m: Seq<Seq<u32>>, pairs: Seq<Prediction>, size: int, r: int, n: int)
    requires
        is_confusion_matrix(m, pairs, size),
        0 <= r < size,
        0 <= n <= size,
    ensures
        row_sum(m[r], n) == counted_row_sum(pairs, r, pairs.len() as int, n),
    decreases n,
{
    if n > 0 {
        lemma_row_of_counts(m, pairs, size, r, n - 1);
        assert(m[r][n - 1] == cell_count(pairs, r, n - 1, pairs.len() as int));
    }
}

proof fn lemma_rows_of_counts(m: Seq<Seq<u32>>, pairs: Seq<Prediction>, size: int, n: int)
    requires
        is_confusion_matrix(m, pairs, size),
        0 <= n <= size,
    ensures
        rows_sum(m, n) == counted_rows_sum(pairs, size, pairs.len() as int, n),
    decreases n,
{
    if n > 0 {
        lemma_rows_of_counts(m, pairs, size, n - 1);
        assert(m[n - 1].len() == size);
        lemma_row_of_counts(m, pairs, size, n - 1, size);
    }
}

/// Of observations that all lie within two classes the matrix has four
/// cells; each holds the number of observations with its predicted and its
/// actual class, and together they hold every observation.
pub proof fn lemma_two_class_matrix(m: Seq<Seq<u32>>, pairs: Seq<Prediction>)
    requires
        is_confusion_matrix(m, pairs, 2),
        forall|i: int| 0 <= i < pairs.len() ==> in_range(#[trigger] pairs[i], 2),
    ensures
        m.len() == 2 && m[0].len() == 2 && m[1].len() == 2,
        forall|r: int, c: int|
            0 <= r < 2 && 0 <= c < 2 ==> (#[trigger] m[r][c]) == cell_count(
                pairs,
                r,
                c,
                pairs.len() as int,
            ),
        m[0][0] + m[0][1] + m[1][0] + m[1][1] == pairs.len(),
{
    lemma_matrix_counts_every_pair(m, pairs, 2);
    reveal_with_fuel(rows_sum, 3);
    reveal_with_fuel(row_sum, 3);
}

/// The number of distinct class labels among `labels`.
pub fn class_count(labels: &Vec<u32>) -> (n: usize)
    ensures
        n == labels@.to_set().len(),
{
    let mut seen: HashSet<u32> = HashSet::new();
    let mut i: usize = 0;
    while i < labels.len()
        invariant
            i <= labels.len(),
            seen@ == labels@.take(i as int).to_set(),
        decreases labels.len() - i,
    {
        seen.insert(labels[i]);
        proof {
            let before = labels@.take(i as int);
            let after = labels@.take(i + 1);
            assert(after == before.push(labels@[i as int]));
            assert forall|a: u32| after.to_set().contains(a) <==> before.to_set().insert(
                labels@[i as int],
            ).contains(a) by {
                if after.contains(a) {
                    let j = choose|j: int| 0 <= j < after.len() && after[j] == a;
                    if j < i {
                        assert(before[j] == a);
                    }
                }
                if before.contains(a) {
                    let j = choose|j: int| 0 <= j < before.len() && before[j] == a;
                    assert(after[j] == a);
                }
                assert(after[i as int] == labels@[i as int]);
            }
            assert(after.to_set() =~= before.to_set().insert(labels@[i as int]));
        }
        i += 1;
    }
    assert(labels@.take(labels.len() as int) == labels@);
    seen.len()
}

/// The rule by which scores become predicted classes.
pub fn decision_rule(explicit_threshold: bool, classes: usize) -> (rule: DecisionRule)
    ensures
        rule == rule_for(explicit_threshold, classes as int),
{
    if explicit_threshold {
        DecisionRule::Threshold
    } else if classes == 2 {
        DecisionRule::RoundHalf
    } else {
        DecisionRule::Truncate
    }
}

fn zero_matrix(size: usize) -> (matrix: Vec<Vec<u32>>)
    ensures
        matrix@.len() == size,
        is_square(table(&matrix)),
        forall|r: int, c: int| 0 <= r < size && 0 <= c < size ==> table(&matrix)[r][c] == 0,
{
    let mut matrix: Vec<Vec<u32>> = Vec::new();
    let mut r: usize = 0;
    while r < size
        invariant
            r <= size,
            matrix@.len() == r,
            forall|i: int| 0 <= i < r ==> (#[trigger] matrix@[i])@.len() == size,
            forall|i: int, j: int| 0 <= i < r && 0 <= j < size ==> matrix@[i]@[j] == 0,
        decreases size - r,
    {
        let mut row: Vec<u32> = Vec::new();
        let mut c: usize = 0;
        while c < size
            invariant
                c <= size,
                row@.len() == c,
                forall|j: int| 0 <= j < c ==> row@[j] == 0,
            decreases size - c,
        {
            row.push(0);
            c += 1;
        }
        matrix.push(row);
        r += 1;
    }
    matrix
}

/// The confusion matrix of `size` classes over `pairs`: the entry in row `r`
/// and column `c` is the number of observations predicted as `r` whose class
/// is `c`.
///
/// An observation outside the matrix is reported, the first one first.
pub fn confusion_matrix(pairs: &Vec<Prediction>, size: usize) -> (result: Result<
    Vec<Vec<u32>>,
    MatrixError,
>)
    requires
        pairs@.len() <= u32::MAX,
    ensures
        match result {
            Ok(matrix) => {
                &&& forall|i: int| 0 <= i < pairs@.len() ==> in_range(#[trigger] pairs@[i], size as int)
                &&& is_confusion_matrix(table(&matrix), pairs@, size as int)
                &&& grand_total(table(&matrix)) == pairs@.len()
            },
            Err(e) => is_first_fault(e, pairs@, size as int),
        },
{
    let mut matrix = zero_matrix(size);
    let mut i: usize = 0;
    while i < pairs.len()
        invariant
            i <= pairs.len(),
            pairs@.len() <= u32::MAX,
            matrix@.len() == size,
            is_square(table(&matrix)),
            forall|j: int| 0 <= j < i ==> in_range(#[trigger] pairs@[j], size as int),
            forall|r: int, c: int|
                0 <= r < size && 0 <= c < size ==> (#[trigger] table(&matrix)[r][c]) == cell_count(
                    pairs@,
                    r,
                    c,
                    i as int,
                ),
        decreases pairs.len() - i,
    {
        let p = pairs[i];
        if p.predicted >= size {
            return Err(MatrixError::PredictedOutOfRange { pair: i });
        }
        if p.actual >= size {
            return Err(MatrixError::ActualOutOfRange { pair: i });
        }
        let ghost before = table(&matrix);
        proof {
            assert(before[p.predicted as int].len() == size);
            lemma_cell_count_bounds(pairs@, p.predicted as int, p.actual as int, i as int);
            assert(before[p.predicted as int][p.actual as int] == cell_count(
                pairs@,
                p.predicted as int,
                p.actual as int,
                i as int,
            ));
        }
        let count = matrix[p.predicted][p.actual];
        matrix[p.predicted][p.actual] = count + 1;
        proof {
            let after = table(&matrix);
            assert forall|k: int| 0 <= k < after.len() implies (#[trigger] after[k]).len()
                == after.len() by {
                assert(before[k].len() == before.len());
            }
            assert forall|r: int, c: int| 0 <= r < size && 0 <= c < size implies (
            #[trigger] after[r][c]) == cell_count(pairs@, r, c, i + 1) by {
                assert(before[r][c] == cell_count(pairs@, r, c, i as int));
            }
        }
        i += 1;
    }
    proof {
        lemma_matrix_counts_every_pair(table(&matrix), pairs@, size as int);
    }
    Ok(matrix)
}

} // verus!

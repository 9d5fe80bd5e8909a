//! The rates of each class of a confusion matrix, as fractions of counts.

use vstd::prelude::*;
use crate::ratio::Ratio;

verus! {

/// The four rates of one class of a confusion matrix.
#[derive(Clone, Copy, Debug, PartialEq, Eq, Structural)]
pub struct CMatrixStats {
    pub label: usize,
    pub fpr: Ratio,
    pub tpr: Ratio,
    pub fnr: Ratio,
    pub tnr: Ratio,
}

/// The counts of a matrix, row by row.
pub open spec fn table(matrix: &Vec<Vec<u32>>) -> Seq<Seq<u32>> {
    Seq::new(matrix@.len(), |i: int| matrix@[i]@)
}

/// Every row is as long as the matrix has rows.
pub open spec fn is_square(m: Seq<Seq<u32>>) -> bool {
    forall|i: int| 0 <= i < m.len() ==> (#[trigger] m[i]).len() == m.len()
}

/// The sum of the first `n` entries of a row.
pub open spec fn row_sum(row: Seq<u32>, n: int) -> int
    decreases n,
{
    if n <= 0 {
        0
    } else {
        row_sum(row, n - 1) + row[n - 1]
    }
}

/// The sum of column `c` over the first `n` rows.
pub open spec fn column_sum(m: Seq<Seq<u32>>, c: int, n: int) -> int
    decreases n,
{
    if n <= 0 {
        0
    } else {
        column_sum(m, c, n - 1) + m[n - 1][c]
    }
}

/// The sum of all entries of the first `n` rows.
pub open spec fn rows_sum(m: Seq<Seq<u32>>, n: int) -> int
    decreases n,
{
    if n <= 0 {
        0
    } else {
        rows_sum(m, n - 1) + row_sum(m[n - 1], m[n - 1].len() as int)
    }
}

/// The number of observations the matrix holds.
pub open spec fn grand_total(m: Seq<Seq<u32>>) -> int {
    rows_sum(m, m.len() as int)
}

/// Observations of class `k` that were predicted as `k`.
pub open spec fn true_positives(m: Seq<Seq<u32>>, k: int) -> int {
    m[k][k] as int
}

/// Observations predicted as `k` whose class is another: row `k` without the diagonal.
pub open spec fn false_positives(m: Seq<Seq<u32>>, k: int) -> int {
    row_sum(m[k], m[k].len() as int) - m[k][k]
}

/// Observations of class `k` predicted as another: column `k` without the diagonal.
pub open spec fn false_negatives(m: Seq<Seq<u32>>, k: int) -> int {
    column_sum(m, k, m.len() as int) - m[k][k]
}

/// All remaining observations.
pub open spec fn true_negatives(m: Seq<Seq<u32>>, k: int) -> int {
    grand_total(m) - true_positives(m, k) - false_positives(m, k) - false_negatives(m, k)
}

/// `s` holds the four rates of class `k` of `m`.
///
/// The true negative rate is taken over the true and the false negatives.
pub open spec fn is_class_stats(s: CMatrixStats, m: Seq<Seq<u32>>, k: int) -> bool {
    let tp = true_positives(m, k);
    let fp = false_positives(m, k);
    let fneg = false_negatives(m, k);
    let tn = true_negatives(m, k);
    &&& s.label == k
    &&& s.tpr.is_fraction(tp, tp + fneg)
    &&& s.fpr.is_fraction(fp, fp + tn)
    &&& s.fnr.is_fraction(fneg, fneg + tp)
    &&& s.tnr.is_fraction(tn, tn + fneg)
}

proof fn lemma_row_sum_grows(row: Seq<u32>, a: int, b: int)
    requires
        0 <= a <= b,
    ensures
        0 <= row_sum(row, a) <= row_sum(row, b),
    decreases b,
{
    if b > 0 {
        if a < b {
            lemma_row_sum_grows(row, a, b - 1);
        } else {
            lemma_row_sum_grows(row, a - 1, b - 1);
        }
    }
}

proof fn lemma_entry_in_row(row: Seq<u32>, c: int)
    requires
        0 <= c < row.len(),
    ensures
        row[c] <= row_sum(row, row.len() as int),
{
    lemma_row_sum_grows(row, 0, c);
    lemma_row_sum_grows(row, c + 1, row.len() as int);
}

proof fn lemma_rows_sum_grows(m: Seq<Seq<u32>>, a: int, b: int)
    requires
        0 <= a <= b,
    ensures
        0 <= rows_sum(m, a) <= rows_sum(m, b),
    decreases b,
{
    if b > 0 {
        lemma_row_sum_grows(m[b - 1], 0, m[b - 1].len() as int);
        if a < b {
            lemma_rows_sum_grows(m, a, b - 1);
        } else {
            lemma_rows_sum_grows(m, a - 1, b - 1);
        }
    }
}

proof fn lemma_row_in_total(m: Seq<Seq<u32>>, i: int)
    requires
        0 <= i < m.len(),
    ensures
        0 <= row_sum(m[i], m[i].len() as int) <= grand_total(m),
{
    lemma_row_sum_grows(m[i], 0, m[i].len() as int);
    lemma_rows_sum_grows(m, 0, i);
    lemma_rows_sum_grows(m, i + 1, m.len() as int);
}

proof fn lemma_column_sum_grows(m: Seq<Seq<u32>>, c: int, a: int, b: int)
    requires
        0 <= a <= b,
    ensures
        0 <= column_sum(m, c, a) <= column_sum(m, c, b),
    decreases b,
{
    if b > 0 {
        if a < b {
            lemma_column_sum_grows(m, c, a, b - 1);
        } else {
            lemma_column_sum_grows(m, c, a - 1, b - 1);
        }
    }
}

/// Row `k` and column `k` share the diagonal entry only, so together they
/// stay within the first `n` rows' total.
proof fn lemma_cross_in_total(m: Seq<Seq<u32>>, k: int, n: int)
    requires
        is_square(m),
        0 <= k < m.len(),
        0 <= n <= m.len(),
    ensures
        n <= k ==> column_sum(m, k, n) <= rows_sum(m, n),
        n > k ==> column_sum(m, k, n) + row_sum(m[k], m[k].len() as int) - m[k][k] <= rows_sum(m, n),
    decreases n,
{
    if n > 0 {
        lemma_cross_in_total(m, k, n - 1);
        if n - 1 != k {
            lemma_entry_in_row(m[n - 1], k);
        }
    }
}

/// The four counts of a class are non-negative and add up to the total.
pub proof fn lemma_counts_partition(m: Seq<Seq<u32>>, k: int)
    requires
        is_square(m),
        0 <= k < m.len(),
    ensures
        0 <= true_positives(m, k),
        0 <= false_positives(m, k),
        0 <= false_negatives(m, k),
        0 <= true_negatives(m, k),
        true_positives(m, k) + false_positives(m, k) + false_negatives(m, k) + true_negatives(
            m,
            k,
        ) == grand_total(m),
{
    lemma_entry_in_row(m[k], k);
    lemma_cross_in_total(m, k, m.len() as int);
    lemma_column_sum_grows(m, k, k + 1, m.len() as int);
    lemma_column_sum_grows(m, k, 0, k);
}

/// The true positive rate and the false negative rate of a class are taken
/// over the same observations and add up to one.
pub proof fn lemma_hits_and_misses_add_up(s: CMatrixStats, m: Seq<Seq<u32>>, k: int)
    requires
        is_class_stats(s, m, k),
    ensures
        s.tpr.denominator == s.fnr.denominator,
        s.tpr.numerator + s.fnr.numerator == s.tpr.denominator,
{
}

fn sum_row(matrix: &Vec<Vec<u32>>, i: usize) -> (s: u64)
    requires
        i < matrix.len(),
        grand_total(table(matrix)) <= u64::MAX,
    ensures
        s == row_sum(table(matrix)[i as int], table(matrix)[i as int].len() as int),
{
    let row = &matrix[i];
    let ghost r = table(matrix)[i as int];
    let mut s: u64 = 0;
    let mut j: usize = 0;
    while j < row.len()
        invariant
            j <= row.len(),
            r == row@,
            r == table(matrix)[i as int],
            i < matrix.len(),
            s == row_sum(r, j as int),
            grand_total(table(matrix)) <= u64::MAX,
        decreases row.len() - j,
    {
        proof {
            lemma_row_sum_grows(r, j + 1, r.len() as int);
            lemma_row_in_total(table(matrix), i as int);
        }
        s = s + row[j] as u64;
        j += 1;
    }
    s
}

fn sum_column(matrix: &Vec<Vec<u32>>, c: usize) -> (s: u64)
    requires
        is_square(table(matrix)),
        c < matrix.len(),
        grand_total(table(matrix)) <= u64::MAX,
    ensures
        s == column_sum(table(matrix), c as int, matrix.len() as int),
{
    let ghost m = table(matrix);
    let mut s: u64 = 0;
    let mut i: usize = 0;
    while i < matrix.len()
        invariant
            i <= matrix.len(),
            m == table(matrix),
            is_square(m),
            c < matrix.len(),
            s == column_sum(m, c as int, i as int),
            grand_total(m) <= u64::MAX,
        decreases matrix.len() - i,
    {
        proof {
            assert(m[i as int].len() == m.len());
            lemma_column_sum_grows(m, c as int, i + 1, m.len() as int);
            lemma_counts_partition(m, c as int);
            lemma_entry_in_row(m[c as int], c as int);
        }
        s = s + matrix[i][c] as u64;
        i += 1;
    }
    s
}

fn sum_all(matrix: &Vec<Vec<u32>>) -> (s: u64)
    requires
        grand_total(table(matrix)) <= u64::MAX,
    ensures
        s == grand_total(table(matrix)),
{
    let ghost m = table(matrix);
    let mut s: u64 = 0;
    let mut i: usize = 0;
    while i < matrix.len()
        invariant
            i <= matrix.len(),
            m == table(matrix),
            s == rows_sum(m, i as int),
            grand_total(m) <= u64::MAX,
        decreases matrix.len() - i,
    {
        proof {
            lemma_rows_sum_grows(m, i + 1, m.len() as int);
        }
        let r = sum_row(matrix, i);
        s = s + r;
        i += 1;
    }
    s
}

/// The rates of every class of a square confusion matrix, in ascending order
/// of the class.
///
/// Row `k` holds what was predicted as class `k`, column `k` what belongs to
/// it. A rate whose denominator is zero comes out undefined.
pub fn confusion_matrix_stats(matrix: &Vec<Vec<u32>>) -> (stats: Vec<CMatrixStats>)
    requires
        is_square(table(matrix)),
        grand_total(table(matrix)) <= u64::MAX,
    ensures
        stats@.len() == matrix@.len(),
        forall|k: int| 0 <= k < stats@.len() ==> is_class_stats(#[trigger] stats@[k], table(matrix), k),
        forall|k: int|
            0 <= k < stats@.len() ==> {
                let s = #[trigger] stats@[k];
                s.tpr.is_proper() && s.fpr.is_proper() && s.fnr.is_proper() && s.tnr.is_proper()
            },
{
    let ghost m = table(matrix);
    let size = matrix.len();
    let total = sum_all(matrix);
    let mut stats: Vec<CMatrixStats> = Vec::new();
    let mut k: usize = 0;
    while k < size
        invariant
            k <= size,
            size == matrix.len(),
            m == table(matrix),
            is_square(m),
            total == grand_total(m),
            stats@.len() == k,
            forall|i: int| 0 <= i < k ==> is_class_stats(#[trigger] stats@[i], m, i),
            forall|i: int|
                0 <= i < k ==> {
                    let s = #[trigger] stats@[i];
                    s.tpr.is_proper() && s.fpr.is_proper() && s.fnr.is_proper()
                        && s.tnr.is_proper()
                },
        decreases size - k,
    {
        proof {
            assert(m[k as int].len() == m.len());
            lemma_counts_partition(m, k as int);
        }
        let tp = matrix[k][k] as u64;
        let fp = sum_row(matrix, k) - tp;
        let fneg = sum_column(matrix, k) - tp;
        let tn = total - tp - fp - fneg;
        stats.push(
            CMatrixStats {
                label: k,
                fpr: Ratio::share(fp, tn),
                tpr: Ratio::share(tp, fneg),
                fnr: Ratio::share(fneg, tp),
                tnr: Ratio::share(tn, fneg),
            },
        );
        k += 1;
    }
    stats
}

} // verus!

//! Precision, recall, F1 and false positive rate of scored observations at a
//! series of cutoffs.

use vstd::prelude::*;
use crate::ratio::Ratio;

verus! {

/// The true class of an observation, as far as a binary sweep reads it.
#[derive(Clone, Copy, Debug, PartialEq, Eq)]
pub enum Outcome {
    /// The class is zero.
    Negative,
    /// The class is one.
    Positive,
    /// Any other class; such an observation is counted nowhere.
    Other,
}

/// One observation of a sweep.
///
/// `score` is a key that orders scores as the scores are ordered; a score
/// that compares with nothing has none.
#[derive(Clone, Copy, Debug, PartialEq, Eq)]
pub struct ScoredPair {
    pub score: Option<i64>,
    pub actual: Outcome,
}

/// The four ways a binary decision can turn out.
pub enum Bucket {
    TruePositive,
    FalsePositive,
    FalseNegative,
    TrueNegative,
}

/// One row of the curve: the cutoff and the four figures at it.
#[derive(Clone, Copy, Debug, PartialEq, Eq)]
pub struct ThresholdRow {
    pub threshold: i64,
    pub precision: Ratio,
    pub recall: Ratio,
    pub f1: Ratio,
    pub fpr: Ratio,
}

/// Where an observation is counted at a cutoff: positive when its score
/// reaches the cutoff, negative when it stays below.
pub open spec fn bucket_of(p: ScoredPair, cutoff: i64) -> Option<Bucket> {
    match (p.score, p.actual) {
        (Some(s), Outcome::Positive) => if s >= cutoff {
            Some(Bucket::TruePositive)
        } else {
            Some(Bucket::FalseNegative)
        },
        (Some(s), Outcome::Negative) => if s >= cutoff {
            Some(Bucket::FalsePositive)
        } else {
            Some(Bucket::TrueNegative)
        },
        _ => None,
    }
}

/// How many of the first `n` observations fall into `bucket` at `cutoff`.
pub open spec fn count_in(pairs: Seq<ScoredPair>, cutoff: i64, bucket: Bucket, n: int) -> int
    decreases n,
{
    if n <= 0 {
        0
    } else {
        count_in(pairs, cutoff, bucket, n - 1) + if bucket_of(pairs[n - 1], cutoff) == Some(
            bucket,
        ) {
            1int
        } else {
            0int
        }
    }
}

/// `row` holds the figures of `pairs` at `cutoff`.
///
/// F1 is the harmonic mean of precision and recall, `2·TP / (2·TP + FP + FN)`,
/// and has no value where there is no true positive.
pub open spec fn is_row(row: ThresholdRow, pairs: Seq<ScoredPair>, cutoff: i64) -> bool {
    let n = pairs.len() as int;
    let tp = count_in(pairs, cutoff, Bucket::TruePositive, n);
    let fp = count_in(pairs, cutoff, Bucket::FalsePositive, n);
    let fneg = count_in(pairs, cutoff, Bucket::FalseNegative, n);
    let tn = count_in(pairs, cutoff, Bucket::TrueNegative, n);
    &&& row.threshold == cutoff
    &&& row.precision.is_fraction(tp, tp + fp)
    &&& row.recall.is_fraction(tp, tp + fneg)
    &&& row.fpr.is_fraction(fp, fp + tn)
    &&& if tp == 0 {
        row.f1.is_fraction(0, 0)
    } else {
        row.f1.is_fraction(2 * tp, 2 * tp + fp + fneg)
    }
}

/// The cutoffs of the curve in hundredths: from 5 in steps of 5 up to and
/// including 100.
pub open spec fn grid() -> Seq<u32> {
    Seq::new(20, |k: int| (5 * (k + 1)) as u32)
}

/// Every observation is counted in at most one bucket.
pub proof fn lemma_buckets_disjoint(pairs: Seq<ScoredPair>, cutoff: i64, n: int)
    requires
        0 <= n <= pairs.len(),
    ensures
        0 <= count_in(pairs, cutoff, Bucket::TruePositive, n),
        0 <= count_in(pairs, cutoff, Bucket::FalsePositive, n),
        0 <= count_in(pairs, cutoff, Bucket::FalseNegative, n),
        0 <= count_in(pairs, cutoff, Bucket::TrueNegative, n),
        count_in(pairs, cutoff, Bucket::TruePositive, n) + count_in(
            pairs,
            cutoff,
            Bucket::FalsePositive,
            n,
        ) + count_in(pairs, cutoff, Bucket::FalseNegative, n) + count_in(
            pairs,
            cutoff,
            Bucket::TrueNegative,
            n,
        ) <= n,
    decreases n,
{
    if n > 0 {
        lemma_buckets_disjoint(pairs, cutoff, n - 1);
    }
}

/// The cutoffs of the curve, in hundredths.
pub fn threshold_grid() -> (steps: Vec<u32>)
    ensures
        steps@ == grid(),
        steps@.len() == 20,
        steps@[0] == 5,
        steps@[19] == 100,
{
    let mut steps: Vec<u32> = Vec::new();
    let mut t: u32 = 5;
    while t <= 100
        invariant
            5 <= t <= 105,
            t % 5 == 0,
            steps@.len() == t / 5 - 1,
            forall|k: int| 0 <= k < steps@.len() ==> #[trigger] steps@[k] == 5 * (k + 1),
        decreases 105 - t,
    {
        steps.push(t);
        t = t + 5;
    }
    assert(steps@ =~= grid());
    steps
}

/// The figures of `pairs` at one cutoff.
pub fn threshold_row(pairs: &Vec<ScoredPair>, cutoff: i64) -> (row: ThresholdRow)
    requires
        2 * pairs@.len() <= u64::MAX,
    ensures
        is_row(row, pairs@, cutoff),
        row.precision.is_proper(),
        row.recall.is_proper(),
        row.f1.is_proper(),
        row.fpr.is_proper(),
{
    let mut tp: u64 = 0;
    let mut fp: u64 = 0;
    let mut fneg: u64 = 0;
    let mut tn: u64 = 0;
    let mut i: usize = 0;
    while i < pairs.len()
        invariant
            i <= pairs.len(),
            2 * pairs@.len() <= u64::MAX,
            tp == count_in(pairs@, cutoff, Bucket::TruePositive, i as int),
            fp == count_in(pairs@, cutoff, Bucket::FalsePositive, i as int),
            fneg == count_in(pairs@, cutoff, Bucket::FalseNegative, i as int),
            tn == count_in(pairs@, cutoff, Bucket::TrueNegative, i as int),
            tp + fp + fneg + tn <= i,
        decreases pairs.len() - i,
    {
        let p = pairs[i];
        match p.score {
            Some(s) => {
                match p.actual {
                    Outcome::Positive => {
                        if s >= cutoff {
                            tp = tp + 1;
                        } else {
                            fneg = fneg + 1;
                        }
                    },
                    Outcome::Negative => {
                        if s >= cutoff {
                            fp = fp + 1;
                        } else {
                            tn = tn + 1;
                        }
                    },
                    Outcome::Other => {},
                }
            },
            None => {},
        }
        i += 1;
    }
    let f1 = if tp == 0 {
        Ratio::undefined()
    } else {
        Ratio::share(2 * tp, fp + fneg)
    };
    ThresholdRow {
        threshold: cutoff,
        precision: Ratio::share(tp, fp),
        recall: Ratio::share(tp, fneg),
        f1,
        fpr: Ratio::share(fp, tn),
    }
}

/// The precision, recall, F1 and false positive rate of `pairs` at each of
/// `cutoffs`, one row per cutoff and in their order.
pub fn threshold_rows(pairs: &Vec<ScoredPair>, cutoffs: &Vec<i64>) -> (rows: Vec<ThresholdRow>)
    requires
        2 * pairs@.len() <= u64::MAX,
    ensures
        rows@.len() == cutoffs@.len(),
        forall|k: int| 0 <= k < rows@.len() ==> is_row(#[trigger] rows@[k], pairs@, cutoffs@[k]),
        forall|k: int|
            0 <= k < rows@.len() ==> {
                let r = #[trigger] rows@[k];
                r.precision.is_proper() && r.recall.is_proper() && r.f1.is_proper()
                    && r.fpr.is_proper()
            },
{
    let mut rows: Vec<ThresholdRow> = Vec::new();
    let mut k: usize = 0;
    while k < cutoffs.len()
        invariant
            k <= cutoffs.len(),
            2 * pairs@.len() <= u64::MAX,
            rows@.len() == k,
            forall|i: int| 0 <= i < k ==> is_row(#[trigger] rows@[i], pairs@, cutoffs@[i]),
            forall|i: int|
                0 <= i < k ==> {
                    let r = #[trigger] rows@[i];
                    r.precision.is_proper() && r.recall.is_proper() && r.f1.is_proper()
                        && r.fpr.is_proper()
                },
        decreases cutoffs.len() - k,
    {
        let row = threshold_row(pairs, cutoffs[k]);
        rows.push(row);
        k += 1;
    }
    rows
}

/// The curve of `pairs` over the whole grid: twenty rows, one for each step
/// of `grid()` and in their order, row `k` taken at `keys[k]`, the key of
/// step `k`.
pub fn threshold_table_stats(pairs: &Vec<ScoredPair>, keys: &Vec<i64>) -> (rows: Vec<ThresholdRow>)
    requires
        2 * pairs@.len() <= u64::MAX,
        keys@.len() == grid().len(),
    ensures
        rows@.len() == 20,
        forall|k: int| 0 <= k < 20 ==> is_row(#[trigger] rows@[k], pairs@, keys@[k]),
        forall|k: int|
            0 <= k < 20 ==> {
                let r = #[trigger] rows@[k];
                r.precision.is_proper() && r.recall.is_proper() && r.f1.is_proper()
                    && r.fpr.is_proper()
            },
{
    threshold_rows(pairs, keys)
}

/// Raising the cutoff moves observations from positive to negative and never
/// back: true and false positives do not grow, and the observations of each
/// class stay as many.
pub proof fn lemma_raising_the_cutoff(pairs: Seq<ScoredPair>, low: i64, high: i64, n: int)
    requires
        low <= high,
        0 <= n <= pairs.len(),
    ensures
        count_in(pairs, high, Bucket::TruePositive, n) <= count_in(
            pairs,
            low,
            Bucket::TruePositive,
            n,
        ),
        count_in(pairs, high, Bucket::FalsePositive, n) <= count_in(
            pairs,
            low,
            Bucket::FalsePositive,
            n,
        ),
        count_in(pairs, high, Bucket::TruePositive, n) + count_in(
            pairs,
            high,
            Bucket::FalseNegative,
            n,
        ) == count_in(pairs, low, Bucket::TruePositive, n) + count_in(
            pairs,
            low,
            Bucket::FalseNegative,
            n,
        ),
        count_in(pairs, high, Bucket::FalsePositive, n) + count_in(
            pairs,
            high,
            Bucket::TrueNegative,
            n,
        ) == count_in(pairs, low, Bucket::FalsePositive, n) + count_in(
            pairs,
            low,
            Bucket::TrueNegative,
            n,
        ),
    decreases n,
{
    if n > 0 {
        lemma_raising_the_cutoff(pairs, low, high, n - 1);
    }
}

/// Where every observation is a positive whose score reaches the cutoff,
/// precision and recall are both exactly one.
pub proof fn lemma_all_hits_are_perfect(row: ThresholdRow, pairs: Seq<ScoredPair>, cutoff: i64)
    requires
        pairs.len() > 0,
        forall|i: int|
            0 <= i < pairs.len() ==> bucket_of(#[trigger] pairs[i], cutoff) == Some(
                Bucket::TruePositive,
            ),
        is_row(row, pairs, cutoff),
    ensures
        row.precision.is_one(),
        row.recall.is_one(),
        row.f1.is_one(),
{
    lemma_all_hits_count(pairs, cutoff, pairs.len() as int);
}

proof fn lemma_all_hits_count(pairs: Seq<ScoredPair>, cutoff: i64, n: int)
    requires
        0 <= n <= pairs.len(),
        forall|i: int|
            0 <= i < pairs.len() ==> bucket_of(#[trigger] pairs[i], cutoff) == Some(
                Bucket::TruePositive,
            ),
    ensures
        count_in(pairs, cutoff, Bucket::TruePositive, n) == n,
        count_in(pairs, cutoff, Bucket::FalsePositive, n) == 0,
        count_in(pairs, cutoff, Bucket::FalseNegative, n) == 0,
        count_in(pairs, cutoff, Bucket::TrueNegative, n) == 0,
    decreases n,
{
    if n > 0 {
        lemma_all_hits_count(pairs, cutoff, n - 1);
        assert(bucket_of(pairs[n - 1], cutoff) == Some(Bucket::TruePositive));
    }
}

/// F1 has a value exactly where precision and recall have one and are not
/// both zero, and then `F1 · (P + R) = 2 · P · R`, fraction by fraction.
pub proof fn lemma_f1_is_harmonic_mean(row: ThresholdRow, pairs: Seq<ScoredPair>, cutoff: i64)
    requires
        is_row(row, pairs, cutoff),
    ensures
        row.f1.is_defined() <==> row.precision.is_defined() && row.recall.is_defined() && (
        row.precision.numerator > 0 || row.recall.numerator > 0),
        row.f1.numerator * (row.precision.numerator * row.recall.denominator
            + row.recall.numerator * row.precision.denominator) == 2 * row.precision.numerator
            * row.recall.numerator * row.f1.denominator,
{
    lemma_buckets_disjoint(pairs, cutoff, pairs.len() as int);
    let tp = row.precision.numerator as int;
    let a = row.precision.denominator as int;
    let b = row.recall.denominator as int;
    if tp != 0 {
        assert((2 * tp) * (tp * b + tp * a) == 2 * tp * tp * (a + b)) by (nonlinear_arith);
        assert(row.f1.denominator == a + b);
    } else {
        assert(row.f1.numerator * (tp * b + tp * a) == 2 * tp * tp * row.f1.denominator)
            by (nonlinear_arith)
            requires
                tp == 0,
        ;
    }
}

} // verus!

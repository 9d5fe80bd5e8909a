//! The distribution of byte values in a buffer: the share of each value, and
//! the shares that are not zero.

use vstd::prelude::*;
use crate::ratio::Ratio;
use crate::stats::{lemma_occurrences_bounds, occurrences};

verus! {

/// The sum of the numerators of the first `n` bins.
pub open spec fn numerator_sum(bins: Seq<Ratio>, n: int) -> int
    decreases n,
{
    if n <= 0 {
        0
    } else {
        numerator_sum(bins, n - 1) + bins[n - 1].numerator
    }
}

/// `bins` is the histogram of `bytes`: bin `b` holds the share of the byte
/// `b` among them, and every bin of no bytes at all is zero.
pub open spec fn is_histogram(bins: Seq<Ratio>, bytes: Seq<u8>) -> bool {
    &&& bins.len() == 256
    &&& forall|b: int|
        0 <= b < 256 ==> if bytes.len() == 0 {
            (#[trigger] bins[b]).is_fraction(0, 1)
        } else {
            bins[b].is_fraction(occurrences(bytes, b as u8, bytes.len() as int), bytes.len() as int)
        }
}

/// How many of the first `k` bytes have a value below `n`.
spec fn counted_below(bytes: Seq<u8>, k: int, n: int) -> int
    decreases n,
{
    if n <= 0 {
        0
    } else {
        counted_below(bytes, k, n - 1) + occurrences(bytes, (n - 1) as u8, k)
    }
}

proof fn lemma_counted_below_step(bytes: Seq<u8>, k: int, n: int)
    requires
        0 < k <= bytes.len(),
        0 <= n <= 256,
    ensures
        counted_below(bytes, k, n) == counted_below(bytes, k - 1, n) + if bytes[k - 1] < n {
            1int
        } else {
            0int
        },
    decreases n,
{
    if n > 0 {
        lemma_counted_below_step(bytes, k, n - 1);
    }
}

proof fn lemma_counted_below_none(bytes: Seq<u8>, n: int)
    requires
        0 <= n,
    ensures
        counted_below(bytes, 0, n) == 0,
    decreases n,
{
    if n > 0 {
        lemma_counted_below_none(bytes, n - 1);
    }
}

proof fn lemma_counted_below_all(bytes: Seq<u8>, k: int)
    requires
        0 <= k <= bytes.len(),
    ensures
        counted_below(bytes, k, 256) == k,
    decreases k,
{
    if k > 0 {
        lemma_counted_below_all(bytes, k - 1);
        lemma_counted_below_step(bytes, k, 256);
    } else {
        lemma_counted_below_none(bytes, 256);
    }
}

proof fn lemma_numerators_are_counts(bins: Seq<Ratio>, bytes: Seq<u8>, n: int)
    requires
        is_histogram(bins, bytes),
        bytes.len() > 0,
        0 <= n <= 256,
    ensures
        numerator_sum(bins, n) == counted_below(bytes, bytes.len() as int, n),
    decreases n,
{
    if n > 0 {
        lemma_numerators_are_counts(bins, bytes, n - 1);
        assert(bins[n - 1].is_fraction(
            occurrences(bytes, (n - 1) as u8, bytes.len() as int),
            bytes.len() as int,
        ));
    }
}

/// The bins of a histogram of at least one byte add up to one: their
/// numerators add up to the denominator that they share.
pub proof fn lemma_histogram_sums_to_one(bins: Seq<Ratio>, bytes: Seq<u8>)
    requires
        is_histogram(bins, bytes),
        bytes.len() > 0,
    ensures
        numerator_sum(bins, 256) == bytes.len(),
        forall|b: int| 0 <= b < 256 ==> (#[trigger] bins[b]).denominator == bytes.len(),
{
    lemma_numerators_are_counts(bins, bytes, 256);
    lemma_counted_below_all(bytes, bytes.len() as int);
}

/// Those of the first `n` bins that are not zero, in their order.
pub open spec fn occupied(bins: Seq<Ratio>, n: int) -> Seq<Ratio>
    decreases n,
{
    if n <= 0 {
        Seq::empty()
    } else {
        let before = occupied(bins, n - 1);
        if bins[n - 1].numerator > 0 {
            before.push(bins[n - 1])
        } else {
            before
        }
    }
}

/// The bins that are not zero, in their order: the shares that add to the
/// entropy of a distribution.
pub fn occupied_bins(bins: &Vec<Ratio>) -> (terms: Vec<Ratio>)
    ensures
        terms@ == occupied(bins@, bins@.len() as int),
{
    let mut terms: Vec<Ratio> = Vec::new();
    let mut b: usize = 0;
    while b < bins.len()
        invariant
            b <= bins.len(),
            terms@ == occupied(bins@, b as int),
        decreases bins.len() - b,
    {
        if bins[b].numerator > 0 {
            terms.push(bins[b]);
        }
        b += 1;
    }
    terms
}

proof fn lemma_occurrences_of_constant(bytes: Seq<u8>, value: u8, other: u8, n: int)
    requires
        0 <= n <= bytes.len(),
        forall|i: int| 0 <= i < bytes.len() ==> bytes[i] == value,
    ensures
        occurrences(bytes, other, n) == if other == value {
            n
        } else {
            0
        },
    decreases n,
{
    if n > 0 {
        lemma_occurrences_of_constant(bytes, value, other, n - 1);
    }
}

proof fn lemma_occupied_single(bins: Seq<Ratio>, value: int, n: int)
    requires
        0 <= n <= bins.len(),
        0 <= value < bins.len(),
        bins[value].numerator > 0,
        forall|b: int| 0 <= b < bins.len() && b != value ==> (#[trigger] bins[b]).numerator == 0,
    ensures
        occupied(bins, n) == if n <= value {
            Seq::<Ratio>::empty()
        } else {
            seq![bins[value]]
        },
    decreases n,
{
    if n > 0 {
        lemma_occupied_single(bins, value, n - 1);
        if n - 1 == value {
            assert(Seq::<Ratio>::empty().push(bins[value]) =~= seq![bins[value]]);
        }
    }
}

/// Of bytes that all have one value, one bin is not zero, and it is exactly
/// one: such bytes hold no information.
pub proof fn lemma_constant_bytes_fill_one_bin(bins: Seq<Ratio>, bytes: Seq<u8>, value: u8)
    requires
        is_histogram(bins, bytes),
        bytes.len() > 0,
        forall|i: int| 0 <= i < bytes.len() ==> bytes[i] == value,
    ensures
        occupied(bins, 256) == seq![bins[value as int]],
        bins[value as int].is_one(),
{
    assert forall|b: int| 0 <= b < 256 implies (#[trigger] bins[b]).numerator == if b == value {
        bytes.len() as int
    } else {
        0
    } by {
        lemma_occurrences_of_constant(bytes, value, b as u8, bytes.len() as int);
    }
    lemma_occupied_single(bins, value as int, 256);
}

/// Where each of the 256 values occurs equally often, every bin is one
/// 256th.
pub proof fn lemma_uniform_bytes_fill_all_bins(bins: Seq<Ratio>, bytes: Seq<u8>, each: int)
    requires
        is_histogram(bins, bytes),
        each > 0,
        forall|v: u8| #[trigger] occurrences(bytes, v, bytes.len() as int) == each,
    ensures
        forall|b: int| 0 <= b < 256 ==> (#[trigger] bins[b]).is_fraction(each, 256 * each),
{
    assert(bytes.len() > 0) by {
        if bytes.len() == 0 {
            assert(occurrences(bytes, 0u8, bytes.len() as int) == each);
        }
    }
    lemma_histogram_sums_to_one(bins, bytes);
    lemma_sum_of_equal_numerators(bins, each, 256);
}

proof fn lemma_sum_of_equal_numerators(bins: Seq<Ratio>, each: int, n: int)
    requires
        0 <= n <= bins.len(),
        forall|b: int| 0 <= b < n ==> (#[trigger] bins[b]).numerator == each,
    ensures
        numerator_sum(bins, n) == n * each,
    decreases n,
{
    if n > 0 {
        lemma_sum_of_equal_numerators(bins, each, n - 1);
        assert(bins[n - 1].numerator == each);
        assert(n * each == (n - 1) * each + each) by (nonlinear_arith);
    } else {
        assert(n * each == 0) by (nonlinear_arith)
            requires
                n == 0,
        ;
    }
}

/// The share of each byte value among `bytes`, in 256 bins in the order of
/// the values. Of no bytes at all every share is zero.
pub fn to_byte_histogram(bytes: &[u8]) -> (bins: Vec<Ratio>)
    ensures
        is_histogram(bins@, bytes@),
        bytes@.len() > 0 ==> numerator_sum(bins@, 256) == bytes@.len(),
        forall|b: int| 0 <= b < 256 ==> (#[trigger] bins@[b]).is_proper(),
{
    let n = bytes.len();
    let mut counts: Vec<usize> = Vec::new();
    let mut b: usize = 0;
    while b < 256
        invariant
            b <= 256,
            counts@.len() == b,
            forall|k: int| 0 <= k < b ==> counts@[k] == 0,
        decreases 256 - b,
    {
        counts.push(0);
        b += 1;
    }
    let mut i: usize = 0;
    while i < n
        invariant
            i <= n,
            n == bytes@.len(),
            counts@.len() == 256,
            forall|k: int|
                0 <= k < 256 ==> (#[trigger] counts@[k]) == occurrences(
                    bytes@,
                    k as u8,
                    i as int,
                ),
        decreases n - i,
    {
        let value = bytes[i] as usize;
        proof {
            lemma_occurrences_bounds(bytes@, value as u8, i as int);
        }
        let seen = counts[value];
        counts[value] = seen + 1;
        i += 1;
    }
    let mut bins: Vec<Ratio> = Vec::new();
    let mut b: usize = 0;
    while b < 256
        invariant
            b <= 256,
            n == bytes@.len(),
            counts@.len() == 256,
            bins@.len() == b,
            forall|k: int|
                0 <= k < 256 ==> (#[trigger] counts@[k]) == occurrences(
                    bytes@,
                    k as u8,
                    n as int,
                ),
            forall|k: int|
                0 <= k < b ==> if n == 0 {
                    (#[trigger] bins@[k]).is_fraction(0, 1)
                } else {
                    bins@[k].is_fraction(occurrences(bytes@, k as u8, n as int), n as int)
                },
            forall|k: int| 0 <= k < b ==> (#[trigger] bins@[k]).is_proper(),
        decreases 256 - b,
    {
        proof {
            lemma_occurrences_bounds(bytes@, b as u8, n as int);
        }
        let bin = if n == 0 {
            Ratio::new(0, 1)
        } else {
            Ratio::new(counts[b] as u64, n as u64)
        };
        bins.push(bin);
        b += 1;
    }
    proof {
        if n > 0 {
            lemma_histogram_sums_to_one(bins@, bytes@);
        }
    }
    bins
}

} // verus!

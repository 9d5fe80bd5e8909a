//! The mode of bucketed samples and the place of the median among ordered
//! samples.

use vstd::prelude::*;
use std::collections::HashMap;

verus! {

/// Why a statistic has no value.
#[derive(Clone, Copy, Debug, PartialEq, Eq)]
pub enum StatsError {
    /// There is no sample.
    EmptyInput,
    /// A sample compares with nothing, so the samples have no order.
    Unordered,
}

/// Where the median of some samples is found.
#[derive(Clone, Copy, Debug, PartialEq, Eq)]
pub enum Median {
    /// No sample: the median is zero.
    Empty,
    /// One sample, which is the median.
    Single,
    /// Two samples: the median is the first plus half of the second.
    FirstPlusHalfSecond,
    /// Three samples or more: the median is the sample at this position.
    Sample(usize),
}

/// How often `x` stands among the first `n` of `xs`.
pub open spec fn occurrences<T>(xs: Seq<T>, x: T, n: int) -> int
    decreases n,
{
    if n <= 0 {
        0
    } else {
        occurrences(xs, x, n - 1) + if xs[n - 1] == x {
            1int
        } else {
            0int
        }
    }
}

/// `b` is the most frequent of `xs`, and the smallest of the most frequent.
pub open spec fn is_mode(xs: Seq<u32>, b: u32) -> bool {
    let n = xs.len() as int;
    &&& occurrences(xs, b, n) > 0
    &&& forall|j: int| 0 <= j < n ==> occurrences(xs, #[trigger] xs[j], n) <= occurrences(xs, b, n)
    &&& forall|j: int|
        0 <= j < n && occurrences(xs, #[trigger] xs[j], n) == occurrences(xs, b, n) ==> b <= xs[j]
}

/// Every sample has a key.
pub open spec fn all_ordered(keys: Seq<Option<i64>>) -> bool {
    forall|i: int| 0 <= i < keys.len() ==> (#[trigger] keys[i]) is Some
}

/// Sample `j` comes before sample `i` when the samples are put in ascending
/// order and equal samples keep their places.
pub open spec fn precedes(keys: Seq<Option<i64>>, j: int, i: int) -> bool {
    keys[j]->0 < keys[i]->0 || (keys[j]->0 == keys[i]->0 && j < i)
}

/// How many of the first `n` samples come before sample `i`.
pub open spec fn rank(keys: Seq<Option<i64>>, i: int, n: int) -> int
    decreases n,
{
    if n <= 0 {
        0
    } else {
        rank(keys, i, n - 1) + if precedes(keys, n - 1, i) {
            1int
        } else {
            0int
        }
    }
}

/// `m` says where the median of the samples is: the middle one in ascending
/// order, and of an even number the lower of the two in the middle.
pub open spec fn is_median(keys: Seq<Option<i64>>, m: Median) -> bool {
    let n = keys.len() as int;
    match m {
        Median::Empty => n == 0,
        Median::Single => n == 1,
        Median::FirstPlusHalfSecond => n == 2,
        Median::Sample(i) => n >= 3 && i < n && rank(keys, i as int, n) == (n - 1) / 2,
    }
}

/// Among `n` values one value stands at most `n` times, and at least once
/// where it stands at all.
pub proof fn lemma_occurrences_bounds<T>(xs: Seq<T>, x: T, n: int)
    requires
        0 <= n <= xs.len(),
    ensures
        0 <= occurrences(xs, x, n) <= n,
        forall|j: int| 0 <= j < n && xs[j] == x ==> occurrences(xs, x, n) > 0,
    decreases n,
{
    if n > 0 {
        lemma_occurrences_bounds(xs, x, n - 1);
    }
}

proof fn lemma_occurs_somewhere<T>(xs: Seq<T>, x: T, n: int)
    requires
        0 <= n <= xs.len(),
        occurrences(xs, x, n) > 0,
    ensures
        exists|j: int| 0 <= j < n && xs[j] == x,
    decreases n,
{
    if n > 0 && xs[n - 1] != x {
        lemma_occurs_somewhere(xs, x, n - 1);
    }
}

/// Samples have one mode: the most frequent value, and the smallest such.
pub proof fn lemma_mode_is_unique(xs: Seq<u32>, a: u32, b: u32)
    requires
        is_mode(xs, a),
        is_mode(xs, b),
    ensures
        a == b,
{
    let n = xs.len() as int;
    lemma_occurs_somewhere(xs, a, n);
    lemma_occurs_somewhere(xs, b, n);
    let i = choose|i: int| 0 <= i < n && xs[i] == a;
    let j = choose|j: int| 0 <= j < n && xs[j] == b;
    assert(occurrences(xs, xs[i], n) <= occurrences(xs, b, n));
    assert(occurrences(xs, xs[j], n) <= occurrences(xs, a, n));
}

proof fn lemma_rank_grows(keys: Seq<Option<i64>>, a: int, b: int, n: int)
    requires
        0 <= a < keys.len(),
        0 <= b < keys.len(),
        0 <= n <= keys.len(),
        precedes(keys, a, b),
    ensures
        rank(keys, a, n) + if a < n {
            1int
        } else {
            0int
        } <= rank(keys, b, n),
    decreases n,
{
    if n > 0 {
        lemma_rank_grows(keys, a, b, n - 1);
    }
}

/// No two samples have the same rank, so the median is one sample.
pub proof fn lemma_ranks_differ(keys: Seq<Option<i64>>, a: int, b: int)
    requires
        0 <= a < keys.len(),
        0 <= b < keys.len(),
        a != b,
    ensures
        rank(keys, a, keys.len() as int) != rank(keys, b, keys.len() as int),
{
    if precedes(keys, a, b) {
        lemma_rank_grows(keys, a, b, keys.len() as int);
    } else {
        assert(precedes(keys, b, a));
        lemma_rank_grows(keys, b, a, keys.len() as int);
    }
}

/// The rank of a sample is a position among the samples.
pub proof fn lemma_rank_bounds(keys: Seq<Option<i64>>, i: int, n: int)
    requires
        0 <= i < keys.len(),
        0 <= n <= keys.len(),
    ensures
        0 <= rank(keys, i, n) <= n,
        i < n ==> rank(keys, i, n) < n,
    decreases n,
{
    if n > 0 {
        lemma_rank_bounds(keys, i, n - 1);
    }
}

/// The most frequent of `buckets`, and of several that are equally frequent
/// the smallest.
pub fn mode(buckets: &Vec<u32>) -> (result: Result<u32, StatsError>)
    ensures
        match result {
            Ok(b) => buckets@.len() > 0 && is_mode(buckets@, b),
            Err(e) => buckets@.len() == 0 && e == StatsError::EmptyInput,
        },
{
    let n = buckets.len();
    if n == 0 {
        return Err(StatsError::EmptyInput);
    }
    let ghost xs = buckets@;
    let mut counts: HashMap<u32, usize> = HashMap::new();
    let mut i: usize = 0;
    while i < n
        invariant
            i <= n,
            n == buckets.len(),
            xs == buckets@,
            forall|k: u32| counts@.contains_key(k) <==> occurrences(xs, k, i as int) > 0,
            forall|k: u32| counts@.contains_key(k) ==> counts@[k] == occurrences(xs, k, i as int),
        decreases n - i,
    {
        let x = buckets[i];
        proof {
            lemma_occurrences_bounds(xs, x, i as int);
        }
        let seen = match counts.get(&x) {
            Some(c) => *c,
            None => 0,
        };
        counts.insert(x, seen + 1);
        i += 1;
    }
    let mut best: u32 = buckets[0];
    proof {
        lemma_occurrences_bounds(xs, best, n as int);
    }
    let mut best_count: usize = match counts.get(&best) {
        Some(c) => *c,
        None => 0,
    };
    let mut j: usize = 1;
    while j < n
        invariant
            1 <= j <= n,
            n == buckets.len(),
            xs == buckets@,
            forall|k: u32| counts@.contains_key(k) <==> occurrences(xs, k, n as int) > 0,
            forall|k: u32| counts@.contains_key(k) ==> counts@[k] == occurrences(xs, k, n as int),
            best_count == occurrences(xs, best, n as int),
            best_count > 0,
            forall|k: int|
                0 <= k < j ==> occurrences(xs, #[trigger] xs[k], n as int) <= best_count,
            forall|k: int|
                0 <= k < j && occurrences(xs, #[trigger] xs[k], n as int) == best_count ==> best
                    <= xs[k],
        decreases n - j,
    {
        let x = buckets[j];
        proof {
            lemma_occurrences_bounds(xs, x, n as int);
        }
        let c = match counts.get(&x) {
            Some(c) => *c,
            None => 0,
        };
        if c > best_count || (c == best_count && x < best) {
            best = x;
            best_count = c;
        }
        j += 1;
    }
    Ok(best)
}

/// The order of pairs: by the first entry, and by the second among equals.
pub open spec fn pair_lt(a: (i64, usize), b: (i64, usize)) -> bool {
    a.0 < b.0 || (a.0 == b.0 && a.1 < b.1)
}

/// Sorts with `slice::sort`: afterwards the vector holds what it held, each
/// pair as often as before, in ascending order.
#[verifier::external_body]
fn sort_pairs(items: &mut Vec<(i64, usize)>)
    ensures
        final(items)@.to_multiset() == old(items)@.to_multiset(),
        forall|a: int, b: int|
            0 <= a < b < final(items)@.len() ==> !pair_lt(
                #[trigger] final(items)@[b],
                #[trigger] final(items)@[a],
            ),
{
    items.sort();
}

/// How many of the first `n` pairs are less than `x`.
spec fn below(items: Seq<(i64, usize)>, x: (i64, usize), n: int) -> int
    decreases n,
{
    if n <= 0 {
        0
    } else {
        below(items, x, n - 1) + if pair_lt(items[n - 1], x) {
            1int
        } else {
            0int
        }
    }
}

/// Each sample's key beside its position.
spec fn is_paired(items: Seq<(i64, usize)>, keys: Seq<Option<i64>>) -> bool {
    &&& items.len() == keys.len()
    &&& forall|j: int| 0 <= j < items.len() ==> (#[trigger] items[j]) == (keys[j]->0, j as usize)
}

proof fn lemma_below_agree(a: Seq<(i64, usize)>, b: Seq<(i64, usize)>, x: (i64, usize), n: int)
    requires
        0 <= n <= a.len(),
        n <= b.len(),
        forall|j: int| 0 <= j < n ==> a[j] == b[j],
    ensures
        below(a, x, n) == below(b, x, n),
    decreases n,
{
    if n > 0 {
        lemma_below_agree(a, b, x, n - 1);
    }
}

proof fn lemma_below_remove(a: Seq<(i64, usize)>, k: int, x: (i64, usize), n: int)
    requires
        0 <= k < n <= a.len(),
    ensures
        below(a, x, n) == below(a.remove(k), x, n - 1) + if pair_lt(a[k], x) {
            1int
        } else {
            0int
        },
    decreases n,
{
    if k == n - 1 {
        lemma_below_agree(a, a.remove(k), x, n - 1);
    } else {
        lemma_below_remove(a, k, x, n - 1);
        assert(a.remove(k)[n - 2] == a[n - 1]);
    }
}

proof fn lemma_below_permutation(a: Seq<(i64, usize)>, b: Seq<(i64, usize)>, x: (i64, usize))
    requires
        a.to_multiset() == b.to_multiset(),
    ensures
        a.len() == b.len(),
        below(a, x, a.len() as int) == below(b, x, b.len() as int),
    decreases a.len(),
{
    a.to_multiset_ensures();
    b.to_multiset_ensures();
    if a.len() > 0 {
        let last = a[a.len() - 1];
        assert(a.contains(last));
        assert(a.to_multiset().count(last) > 0);
        assert(b.to_multiset().count(last) > 0);
        assert(b.contains(last));
        let k = choose|k: int| 0 <= k < b.len() && b[k] == last;
        let a1 = a.remove(a.len() - 1);
        let b1 = b.remove(k);
        assert(a1.to_multiset() =~= b1.to_multiset());
        lemma_below_permutation(a1, b1, x);
        lemma_below_remove(a, a.len() - 1, x, a.len() as int);
        lemma_below_remove(b, k, x, b.len() as int);
    }
}

proof fn lemma_below_sorted(s: Seq<(i64, usize)>, p: int, n: int)
    requires
        0 <= p < s.len(),
        0 <= n <= s.len(),
        forall|a: int, b: int| 0 <= a < b < s.len() ==> pair_lt(#[trigger] s[a], #[trigger] s[b]),
    ensures
        below(s, s[p], n) == if n <= p {
            n
        } else {
            p
        },
    decreases n,
{
    if n > 0 {
        lemma_below_sorted(s, p, n - 1);
        if n - 1 < p {
            assert(pair_lt(s[n - 1], s[p]));
        } else if n - 1 > p {
            assert(pair_lt(s[p], s[n - 1]));
        }
    }
}

proof fn lemma_below_is_rank(items: Seq<(i64, usize)>, keys: Seq<Option<i64>>, i: int, n: int)
    requires
        is_paired(items, keys),
        0 <= i < keys.len(),
        0 <= n <= keys.len(),
        keys.len() <= usize::MAX,
    ensures
        below(items, items[i], n) == rank(keys, i, n),
    decreases n,
{
    if n > 0 {
        lemma_below_is_rank(items, keys, i, n - 1);
        assert(items[n - 1] == (keys[n - 1]->0, (n - 1) as usize));
        assert(items[i] == (keys[i]->0, i as usize));
    }
}

/// The sample in the middle of the sorted pairs is the sample of that rank.
proof fn lemma_middle_of_sorted(
    sorted: Seq<(i64, usize)>,
    items: Seq<(i64, usize)>,
    keys: Seq<Option<i64>>,
    p: int,
)
    requires
        is_paired(items, keys),
        keys.len() <= usize::MAX,
        sorted.to_multiset() == items.to_multiset(),
        forall|a: int, b: int|
            0 <= a < b < sorted.len() ==> !pair_lt(#[trigger] sorted[b], #[trigger] sorted[a]),
        0 <= p < keys.len(),
    ensures
        sorted.len() == keys.len(),
        sorted[p].1 < keys.len(),
        rank(keys, sorted[p].1 as int, keys.len() as int) == p,
{
    sorted.to_multiset_ensures();
    items.to_multiset_ensures();
    assert(items.no_duplicates()) by {
        assert forall|a: int, b: int| 0 <= a < items.len() && 0 <= b < items.len() && a
            != b implies items[a] != items[b] by {
            assert(items[a].1 == a as usize);
            assert(items[b].1 == b as usize);
        }
    }
    items.lemma_multiset_has_no_duplicates();
    sorted.lemma_multiset_has_no_duplicates_conv();
    assert forall|a: int, b: int| 0 <= a < b < sorted.len() implies pair_lt(
        #[trigger] sorted[a],
        #[trigger] sorted[b],
    ) by {
        assert(!pair_lt(sorted[b], sorted[a]));
        assert(sorted[a] != sorted[b]);
    }
    let x = sorted[p];
    assert(sorted.contains(x));
    assert(sorted.to_multiset().count(x) > 0);
    assert(items.to_multiset().count(x) > 0);
    assert(items.contains(x));
    let i = choose|i: int| 0 <= i < items.len() && items[i] == x;
    assert(items[i] == (keys[i]->0, i as usize));
    lemma_below_sorted(sorted, p, sorted.len() as int);
    lemma_below_permutation(sorted, items, x);
    lemma_below_is_rank(items, keys, i, keys.len() as int);
}

/// Where the median of the samples is found, from the keys that order them.
///
/// Three or more samples have a median only if each of them has a key.
pub fn median(keys: &Vec<Option<i64>>) -> (result: Result<Median, StatsError>)
    ensures
        match result {
            Ok(m) => is_median(keys@, m) && (keys@.len() >= 3 ==> all_ordered(keys@)),
            Err(e) => keys@.len() >= 3 && !all_ordered(keys@) && e == StatsError::Unordered,
        },
{
    let n = keys.len();
    if n == 0 {
        return Ok(Median::Empty);
    }
    if n == 1 {
        return Ok(Median::Single);
    }
    if n == 2 {
        return Ok(Median::FirstPlusHalfSecond);
    }
    let mut items: Vec<(i64, usize)> = Vec::new();
    let mut i: usize = 0;
    while i < n
        invariant
            i <= n,
            3 <= n == keys.len(),
            items@.len() == i,
            forall|j: int| 0 <= j < i ==> (#[trigger] keys@[j]) is Some,
            forall|j: int| 0 <= j < i ==> (#[trigger] items@[j]) == (keys@[j]->0, j as usize),
        decreases n - i,
    {
        match keys[i] {
            Some(key) => {
                items.push((key, i));
            },
            None => {
                assert(keys@[i as int] is None);
                return Err(StatsError::Unordered);
            },
        }
        i += 1;
    }
    let ghost paired = items@;
    sort_pairs(&mut items);
    let middle = (n - 1) / 2;
    proof {
        lemma_middle_of_sorted(items@, paired, keys@, middle as int);
    }
    Ok(Median::Sample(items[middle].1))
}

} // verus!

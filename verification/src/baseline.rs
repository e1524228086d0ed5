use vstd::prelude::*;

verus! {

/// The smallest corpus from which a baseline is estimated.
pub const MIN_CORPUS: usize = 3;

/// `a` comes before `b` when pairs are listed by first index, then by
/// second.
pub open spec fn pair_before(a: (usize, usize), b: (usize, usize)) -> bool {
    a.0 < b.0 || (a.0 == b.0 && a.1 < b.1)
}

/// `pairs` lists every unordered pair of positions below `n` exactly once,
/// the smaller position first, by first position and then by second.
pub open spec fn lists_all_pairs(pairs: Seq<(usize, usize)>, n: int) -> bool {
    &&& forall|k: int| 0 <= k < pairs.len() ==> (#[trigger] pairs[k]).0 < pairs[k].1 < n
    &&& forall|k: int, l: int|
        0 <= k < l < pairs.len() ==> pair_before(#[trigger] pairs[k], #[trigger] pairs[l])
    &&& forall|i: usize, j: usize| i < j < n ==> pairs.contains((i, j))
    &&& 2 * pairs.len() == n * (n - 1)
}

/// The pairs of corpus positions whose similarities make up the baseline
/// sample, or `None` when the corpus is too small to estimate from.
///
/// A corpus of `n` vectors gives `n * (n - 1) / 2` pairs.
pub fn corpus_pairs(n: usize) -> (r: Option<Vec<(usize, usize)>>)
    ensures
        n < MIN_CORPUS <==> r is None,
        r matches Some(pairs) ==> lists_all_pairs(pairs@, n as int),
{
    if n < MIN_CORPUS {
        return None;
    }
    let mut pairs: Vec<(usize, usize)> = Vec::new();
    let mut i: usize = 0;
    while i < n
        invariant
            i <= n,
            forall|k: int| 0 <= k < pairs@.len() ==> (#[trigger] pairs@[k]).0 < pairs@[k].1 < n,
            forall|k: int| 0 <= k < pairs@.len() ==> (#[trigger] pairs@[k]).0 < i,
            forall|k: int, l: int|
                0 <= k < l < pairs@.len() ==> pair_before(
                    #[trigger] pairs@[k],
                    #[trigger] pairs@[l],
                ),
            forall|a: usize, b: usize| a < i && a < b < n ==> pairs@.contains((a, b)),
            2 * pairs@.len() == i * (2 * n - i - 1),
        decreases n - i,
    {
        let mut j: usize = i + 1;
        while j < n
            invariant
                i < n,
                i < j <= n,
                forall|k: int|
                    0 <= k < pairs@.len() ==> (#[trigger] pairs@[k]).0 < pairs@[k].1 < n,
                forall|k: int|
                    0 <= k < pairs@.len() ==> (#[trigger] pairs@[k]).0 < i || (pairs@[k].0 == i
                        && pairs@[k].1 < j),
                forall|k: int, l: int|
                    0 <= k < l < pairs@.len() ==> pair_before(
                        #[trigger] pairs@[k],
                        #[trigger] pairs@[l],
                    ),
                forall|a: usize, b: usize| a < i && a < b < n ==> pairs@.contains((a, b)),
                forall|b: usize| i < b < j ==> pairs@.contains((i, b)),
                2 * pairs@.len() == i * (2 * n - i - 1) + 2 * (j - i - 1),
            decreases n - j,
        {
            let ghost before = pairs@;
            pairs.push((i, j));
            proof {
                assert(pairs@[before.len() as int] == (i, j));
                assert forall|a: usize, b: usize| a < i && a < b < n implies pairs@.contains(
                    (a, b),
                ) by {
                    assert(before.contains((a, b)));
                    let k = choose|k: int| 0 <= k < before.len() && before[k] == (a, b);
                    assert(pairs@[k] == (a, b));
                }
                assert forall|b: usize| i < b < j + 1 implies pairs@.contains((i, b)) by {
                    if b < j {
                        assert(before.contains((i, b)));
                        let k = choose|k: int| 0 <= k < before.len() && before[k] == (i, b);
                        assert(pairs@[k] == (i, b));
                    }
                }
            }
            j += 1;
        }
        proof {
            assert((i + 1) * (2 * n - (i + 1) - 1) == i * (2 * n - i - 1) + 2 * (n - i - 1))
                by (nonlinear_arith);
        }
        i += 1;
    }
    proof {
        assert(n * (2 * n - n - 1) == n * (n - 1)) by (nonlinear_arith);
    }
    Some(pairs)
}

/// How many members of `keys` are less than `bound`.
pub open spec fn count_below(keys: Seq<u32>, bound: int) -> nat
    decreases keys.len(),
{
    if keys.len() == 0 {
        0
    } else {
        count_below(keys.drop_last(), bound) + if keys.last() < bound {
            1nat
        } else {
            0nat
        }
    }
}

/// `value` stands at position `k`, counted from 0, when `keys` are put in
/// ascending order: at most `k` members are smaller, and more than `k` are
/// smaller or equal.
pub open spec fn is_order_statistic(keys: Seq<u32>, k: int, value: u32) -> bool {
    count_below(keys, value as int) <= k < count_below(keys, value + 1)
}

/// No member is followed by a smaller one.
pub open spec fn ascending(keys: Seq<u32>) -> bool {
    forall|i: int, j: int| 0 <= i <= j < keys.len() ==> keys[i] <= keys[j]
}

/// `a` and `b` hold the same members, each as often: they are equally long
/// and have equally many members below every bound.
pub open spec fn same_members(a: Seq<u32>, b: Seq<u32>) -> bool {
    &&& a.len() == b.len()
    &&& forall|bound: int| #[trigger] count_below(a, bound) == count_below(b, bound)
}

proof fn lemma_count_at_most_len(keys: Seq<u32>, bound: int)
    ensures
        count_below(keys, bound) <= keys.len(),
    decreases keys.len(),
{
    if keys.len() > 0 {
        lemma_count_at_most_len(keys.drop_last(), bound);
    }
}

proof fn lemma_count_concat(a: Seq<u32>, b: Seq<u32>, bound: int)
    ensures
        count_below(a + b, bound) == count_below(a, bound) + count_below(b, bound),
    decreases b.len(),
{
    if b.len() == 0 {
        assert(a + b =~= a);
    } else {
        assert((a + b).drop_last() =~= a + b.drop_last());
        lemma_count_concat(a, b.drop_last(), bound);
    }
}

proof fn lemma_count_monotone(keys: Seq<u32>, low: int, high: int)
    requires
        low <= high,
    ensures
        count_below(keys, low) <= count_below(keys, high),
    decreases keys.len(),
{
    if keys.len() > 0 {
        lemma_count_monotone(keys.drop_last(), low, high);
    }
}

proof fn lemma_count_upper(keys: Seq<u32>, bound: int, m: int)
    requires
        0 <= m,
        forall|i: int| m <= i < keys.len() ==> keys[i] >= bound,
    ensures
        count_below(keys, bound) <= m,
    decreases keys.len(),
{
    if keys.len() <= m {
        lemma_count_at_most_len(keys, bound);
    } else {
        assert(keys.last() == keys[keys.len() - 1]);
        lemma_count_upper(keys.drop_last(), bound, m);
    }
}

proof fn lemma_count_lower(keys: Seq<u32>, bound: int, m: int)
    requires
        0 <= m <= keys.len(),
        forall|i: int| 0 <= i < m ==> keys[i] < bound,
    ensures
        count_below(keys, bound) >= m,
    decreases keys.len(),
{
    if m > 0 {
        if m == keys.len() {
            assert(keys.last() == keys[keys.len() - 1]);
            lemma_count_lower(keys.drop_last(), bound, m - 1);
        } else {
            lemma_count_lower(keys.drop_last(), bound, m);
        }
    }
}

/// In an ascending sequence the member at position `k` is the order
/// statistic of that position.
pub proof fn lemma_ascending_position(keys: Seq<u32>, k: int)
    requires
        ascending(keys),
        0 <= k < keys.len(),
    ensures
        is_order_statistic(keys, k, keys[k]),
{
    lemma_count_upper(keys, keys[k] as int, k);
    lemma_count_lower(keys, keys[k] + 1, k + 1);
}

/// A position has one order statistic: the contract of a selection names a
/// single value.
pub proof fn lemma_order_statistic_unique(keys: Seq<u32>, k: int, v: u32, w: u32)
    requires
        is_order_statistic(keys, k, v),
        is_order_statistic(keys, k, w),
    ensures
        v == w,
{
    if v < w {
        lemma_count_monotone(keys, v + 1, w as int);
    }
    if w < v {
        lemma_count_monotone(keys, w + 1, v as int);
    }
}

/// An order statistic is one of the members, so whatever bounds hold of
/// every member hold of it.
pub proof fn lemma_order_statistic_is_member(keys: Seq<u32>, k: int, v: u32)
    requires
        is_order_statistic(keys, k, v),
    ensures
        keys.contains(v),
        0 <= k < keys.len(),
    decreases keys.len(),
{
    lemma_count_at_most_len(keys, v + 1);
    if keys.len() > 0 {
        if keys.last() == v {
            assert(keys[keys.len() - 1] == v);
        } else {
            let rest = keys.drop_last();
            lemma_count_monotone(rest, v as int, v + 1);
            if count_below(rest, v as int) < count_below(rest, v + 1) {
                let j = count_below(rest, v as int) as int;
                lemma_order_statistic_is_member(rest, j, v);
                let i = choose|i: int| 0 <= i < rest.len() && rest[i] == v;
                assert(keys[i] == v);
            }
        }
    }
}

/// Merges two ascending runs into one.
fn merge(left: &Vec<u32>, right: &Vec<u32>) -> (merged: Vec<u32>)
    requires
        ascending(left@),
        ascending(right@),
    ensures
        ascending(merged@),
        same_members(merged@, left@ + right@),
{
    let mut merged: Vec<u32> = Vec::new();
    let mut i: usize = 0;
    let mut j: usize = 0;
    while i < left.len() || j < right.len()
        invariant
            i <= left@.len(),
            j <= right@.len(),
            ascending(left@),
            ascending(right@),
            ascending(merged@),
            merged@.len() == i + j,
            forall|k: int| 0 <= k < merged@.len() && i < left@.len() ==> merged@[k] <= left@[i as int],
            forall|k: int|
                0 <= k < merged@.len() && j < right@.len() ==> merged@[k] <= right@[j as int],
            forall|bound: int| #[trigger]
                count_below(merged@, bound) == count_below(left@.subrange(0, i as int), bound)
                    + count_below(right@.subrange(0, j as int), bound),
        decreases left@.len() - i + right@.len() - j,
    {
        let take_left = if i == left.len() {
            false
        } else if j == right.len() {
            true
        } else {
            left[i] <= right[j]
        };
        let ghost before = merged@;
        if take_left {
            let x = left[i];
            merged.push(x);
            proof {
                assert(merged@.drop_last() =~= before);
                assert(left@.subrange(0, i + 1).drop_last() =~= left@.subrange(0, i as int));
                assert forall|bound: int| #[trigger]
                    count_below(merged@, bound) == count_below(
                        left@.subrange(0, i + 1),
                        bound,
                    ) + count_below(right@.subrange(0, j as int), bound) by {
                    assert(count_below(before, bound) == count_below(
                        left@.subrange(0, i as int),
                        bound,
                    ) + count_below(right@.subrange(0, j as int), bound));
                    assert(merged@.last() == x);
                    assert(left@.subrange(0, i + 1).last() == x);
                }
                assert forall|k: int, l: int| 0 <= k <= l < merged@.len() implies merged@[k]
                    <= merged@[l] by {
                    if l < before.len() {
                        assert(before[k] <= before[l]);
                    }
                }
            }
            i += 1;
        } else {
            let x = right[j];
            merged.push(x);
            proof {
                assert(merged@.drop_last() =~= before);
                assert(right@.subrange(0, j + 1).drop_last() =~= right@.subrange(0, j as int));
                assert forall|bound: int| #[trigger]
                    count_below(merged@, bound) == count_below(
                        left@.subrange(0, i as int),
                        bound,
                    ) + count_below(right@.subrange(0, j + 1), bound) by {
                    assert(count_below(before, bound) == count_below(
                        left@.subrange(0, i as int),
                        bound,
                    ) + count_below(right@.subrange(0, j as int), bound));
                    assert(merged@.last() == x);
                    assert(right@.subrange(0, j + 1).last() == x);
                }
                assert forall|k: int, l: int| 0 <= k <= l < merged@.len() implies merged@[k]
                    <= merged@[l] by {
                    if l < before.len() {
                        assert(before[k] <= before[l]);
                    }
                }
            }
            j += 1;
        }
    }
    proof {
        assert(left@.subrange(0, i as int) =~= left@);
        assert(right@.subrange(0, j as int) =~= right@);
        assert forall|bound: int| #[trigger]
            count_below(merged@, bound) == count_below(left@ + right@, bound) by {
            lemma_count_concat(left@, right@, bound);
        }
    }
    merged
}

/// Sorts the keys at positions `from..to` into a vector of their own.
fn sort_range(keys: &Vec<u32>, from: usize, to: usize) -> (sorted: Vec<u32>)
    requires
        from <= to <= keys@.len(),
    ensures
        ascending(sorted@),
        same_members(sorted@, keys@.subrange(from as int, to as int)),
    decreases to - from,
{
    let ghost part = keys@.subrange(from as int, to as int);
    if to - from <= 1 {
        let mut sorted: Vec<u32> = Vec::new();
        if to - from == 1 {
            sorted.push(keys[from]);
        }
        proof {
            assert(sorted@ =~= part);
        }
        sorted
    } else {
        let middle: usize = from + (to - from) / 2;
        let left = sort_range(keys, from, middle);
        let right = sort_range(keys, middle, to);
        let sorted = merge(&left, &right);
        proof {
            let first = keys@.subrange(from as int, middle as int);
            let second = keys@.subrange(middle as int, to as int);
            assert(part =~= first + second);
            assert forall|bound: int| #[trigger]
                count_below(sorted@, bound) == count_below(part, bound) by {
                lemma_count_concat(left@, right@, bound);
                lemma_count_concat(first, second, bound);
                assert(count_below(left@, bound) == count_below(first, bound));
                assert(count_below(right@, bound) == count_below(second, bound));
            }
        }
        sorted
    }
}

/// The keys in ascending order.
pub fn sort_ascending(keys: &Vec<u32>) -> (sorted: Vec<u32>)
    ensures
        ascending(sorted@),
        same_members(sorted@, keys@),
{
    proof {
        assert(keys@.subrange(0, keys@.len() as int) =~= keys@);
    }
    sort_range(keys, 0, keys.len())
}

/// Where the median of a sample lies.
#[derive(Clone, Copy, Debug, PartialEq, Eq, Structural)]
pub enum Median {
    /// The sample has an odd number of members: the median is the one in
    /// the middle of the ascending order.
    Middle(u32),
    /// The sample has an even number of members: the median is the mean of
    /// the two in the middle of the ascending order, the smaller first.
    Between(u32, u32),
}

/// The median of a sample of ordering keys, or `None` for an empty sample.
///
/// The middle of `n` members in ascending order is position `n / 2`; an
/// even `n` has the two middle positions `n / 2 - 1` and `n / 2`. The mean
/// of two members is left to the caller, who knows what the keys stand for.
pub fn median(keys: &Vec<u32>) -> (r: Option<Median>)
    ensures
        keys@.len() == 0 <==> r is None,
        keys@.len() % 2 == 1 <==> r is Some && r->Some_0 is Middle,
        r matches Some(Median::Middle(m)) ==> is_order_statistic(
            keys@,
            keys@.len() as int / 2,
            m,
        ),
        r matches Some(Median::Between(low, high)) ==> is_order_statistic(
            keys@,
            keys@.len() as int / 2 - 1,
            low,
        ) && is_order_statistic(keys@, keys@.len() as int / 2, high),
{
    let n = keys.len();
    if n == 0 {
        return None;
    }
    let sorted = sort_ascending(keys);
    let middle = n / 2;
    if n % 2 == 1 {
        proof {
            lemma_ascending_position(sorted@, middle as int);
        }
        Some(Median::Middle(sorted[middle]))
    } else {
        proof {
            lemma_ascending_position(sorted@, middle - 1);
            lemma_ascending_position(sorted@, middle as int);
        }
        Some(Median::Between(sorted[middle - 1], sorted[middle]))
    }
}

/// The baseline that a run scores against, with where it came from.
#[derive(Clone, Copy, Debug, PartialEq, Eq)]
pub enum Baseline<T> {
    /// Estimated from the corpus.
    Estimated(T),
    /// The configured default, taken because no estimate was to be had.
    Fallback(T),
}

impl<T> Baseline<T> {
    /// The baseline itself, whichever way it came.
    pub open spec fn value_spec(self) -> T {
        match self {
            Baseline::Estimated(v) => v,
            Baseline::Fallback(v) => v,
        }
    }

    /// The baseline itself, whichever way it came.
    pub fn value(self) -> (v: T)
        ensures
            v == self.value_spec(),
    {
        match self {
            Baseline::Estimated(v) => v,
            Baseline::Fallback(v) => v,
        }
    }

    /// Whether the configured default stands in for an estimate.
    pub fn is_fallback(&self) -> (b: bool)
        ensures
            b == (*self is Fallback),
    {
        match self {
            Baseline::Estimated(_) => false,
            Baseline::Fallback(_) => true,
        }
    }
}

/// Settles on the baseline of a run: the estimate where there is one, else
/// `fallback`, and says which it was.
pub fn resolve_baseline<T>(estimate: Option<T>, fallback: T) -> (b: Baseline<T>)
    ensures
        match estimate {
            Some(e) => b == Baseline::Estimated(e),
            None => b == Baseline::Fallback(fallback),
        },
{
    match estimate {
        Some(e) => Baseline::Estimated(e),
        None => Baseline::Fallback(fallback),
    }
}

} // verus!

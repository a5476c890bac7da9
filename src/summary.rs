//! The order-statistic and counting parts of a series summary: quintile
//! cut points and the most frequent bucket.
use vstd::prelude::*;

verus! {

broadcast use vstd::std_specs::hash::group_hash_axioms;

/// One cut point of a k-quintile: the index into the ascending series and
/// the percentile that it stands for, truncated to an integer.
#[derive(Clone, Copy, Debug, PartialEq, Eq, Structural)]
pub struct QuintilePoint {
    pub index: usize,
    pub percent: u64,
}

/// The `k - 1` cut points of a series of `n` values: with `step = n / k`,
/// point `i` (from one) sits at sorted index `i * step` and stands for
/// percentile `100 * i * step / n`. `None` reports that the series is too
/// short, which it is when `n < k`.
pub fn quintiles(n: usize, k: u32) -> (r: Option<Vec<QuintilePoint>>)
    requires
        k >= 1,
    ensures
        (n < k) <==> r is None,
        r matches Some(v) ==> {
            &&& v@.len() == k - 1
            &&& forall|i: int|
                0 <= i < v@.len() ==> (#[trigger] v@[i]).index == (i + 1) * (n as int / k as int)
                    && v@[i].percent == 100 * ((i + 1) * (n as int / k as int)) / (n as int)
        },
{
    if n < k as usize {
        return None;
    }
    let step = n / (k as usize);
    let mut out: Vec<QuintilePoint> = Vec::new();
    let mut i: u32 = 1;
    while i < k
        invariant
            1 <= i <= k,
            k as int <= n,
            n >= 1,
            step == n as int / k as int,
            out@.len() == i - 1,
            forall|j: int|
                0 <= j < out@.len() ==> (#[trigger] out@[j]).index == (j + 1) * (n as int
                    / k as int) && out@[j].percent == 100 * ((j + 1) * (n as int / k as int)) / (
                n as int),
        decreases k - i,
    {
        proof {
            lemma_cut_fits(i as int, k as int, n as int);
        }
        let index = (i as usize) * step;
        let percent = ((100u128 * (index as u128)) / (n as u128)) as u64;
        proof {
            lemma_percent_fits(index as int, n as int);
        }
        out.push(QuintilePoint { index, percent });
        i = i + 1;
    }
    Some(out)
}

proof fn lemma_cut_fits(i: int, k: int, n: int)
    requires
        1 <= i < k,
        k <= n,
    ensures
        0 <= i * (n / k) <= n,
{
    assert(n / k >= 0) by (nonlinear_arith)
        requires
            k >= 1,
            n >= 0,
    ;
    assert(i * (n / k) <= k * (n / k)) by (nonlinear_arith)
        requires
            i < k,
            n / k >= 0,
    ;
    assert(k * (n / k) <= n) by (nonlinear_arith)
        requires
            k >= 1,
            n >= 0,
    ;
    assert(i * (n / k) >= 0) by (nonlinear_arith)
        requires
            i >= 1,
            n / k >= 0,
    ;
}

proof fn lemma_percent_fits(index: int, n: int)
    requires
        0 <= index <= n,
        n >= 1,
    ensures
        0 <= 100 * index / n <= 100,
{
    assert(100 * index / n <= 100 * n / n) by (nonlinear_arith)
        requires
            0 <= index <= n,
            n >= 1,
    ;
    assert(100 * n / n == 100) by (nonlinear_arith)
        requires
            n >= 1,
    ;
    assert(100 * index / n >= 0) by (nonlinear_arith)
        requires
            0 <= index,
            n >= 1,
    ;
}

/// How many of `s` equal `x`.
pub open spec fn occurrences(s: Seq<u32>, x: u32) -> nat
    decreases s.len(),
{
    if s.len() == 0 {
        0
    } else {
        occurrences(s.drop_last(), x) + if s.last() == x {
            1nat
        } else {
            0nat
        }
    }
}

proof fn lemma_occurrences_le(s: Seq<u32>, x: u32)
    ensures
        occurrences(s, x) <= s.len(),
    decreases s.len(),
{
    if s.len() > 0 {
        lemma_occurrences_le(s.drop_last(), x);
    }
}

/// Whether `r` is a most frequent value of the non-empty `s`, the smallest
/// of them where several are equally frequent.
pub open spec fn is_mode_of(s: Seq<u32>, r: u32) -> bool {
    &&& s.contains(r)
    &&& forall|x: u32| s.contains(x) ==> #[trigger] occurrences(s, x) <= occurrences(s, r)
    &&& forall|x: u32|
        s.contains(x) && #[trigger] occurrences(s, x) == occurrences(s, r) ==> r <= x
}

/// The values of a bucket histogram.
pub open spec fn bucket_keys(h: Seq<(u32, u64)>) -> Seq<u32> {
    h.map_values(|p: (u32, u64)| p.0)
}

/// Relies on `itertools::Itertools::sorted`, which collects the elements and
/// sorts them in ascending order with `slice::sort`.
#[verifier::external_body]
fn sorted_buckets(v: Vec<u32>) -> (r: Vec<u32>)
    ensures
        r@.to_multiset() == v@.to_multiset(),
        forall|i: int, j: int| 0 <= i <= j < r@.len() ==> r@[i] <= r@[j],
{
    itertools::Itertools::sorted(v.into_iter()).collect()
}

/// Each distinct bucket of `buckets` with how often it occurs, in ascending
/// order of bucket.
pub fn bucket_histogram(buckets: &Vec<u32>) -> (r: Vec<(u32, u64)>)
    ensures
        forall|j: int| 0 <= j < r@.len() ==> (#[trigger] r@[j]).1 == occurrences(buckets@, r@[j].0),
        forall|i: int, j: int| 0 <= i < j < r@.len() ==> r@[i].0 < r@[j].0,
        forall|x: u32| buckets@.contains(x) <==> bucket_keys(r@).contains(x),
{
    let ghost s = buckets@;
    let mut counts: std::collections::HashMap<u32, u64> = std::collections::HashMap::new();
    let mut keys: Vec<u32> = Vec::new();
    let mut i: usize = 0;
    while i < buckets.len()
        invariant
            s == buckets@,
            i <= s.len(),
            forall|x: u32| #[trigger]
                counts@.contains_key(x) ==> counts@[x] == occurrences(s.take(i as int), x),
            forall|x: u32| #[trigger] occurrences(s.take(i as int), x) > 0 ==> counts@.contains_key(x),
            keys@.no_duplicates(),
            forall|x: u32| keys@.contains(x) <==> #[trigger] occurrences(s.take(i as int), x) > 0,
        decreases s.len() - i,
    {
        let x = buckets[i];
        assert(s.take(i + 1).drop_last() =~= s.take(i as int));
        proof {
            lemma_occurrences_le(s.take(i as int), x);
        }
        let c: u64 = match counts.get(&x) {
            Some(c) => *c,
            None => 0,
        };
        assert(c == occurrences(s.take(i as int), x));
        counts.insert(x, c + 1);
        if c == 0 {
            assert(!keys@.contains(x));
            let ghost before = keys@;
            keys.push(x);
            assert forall|y: u32| keys@.contains(y) <==> #[trigger] occurrences(s.take(i + 1), y) > 0 by {
                if y != x {
                    assert(occurrences(s.take(i + 1), y) == occurrences(s.take(i as int), y));
                    if before.contains(y) {
                        let t = choose|t: int| 0 <= t < before.len() && before[t] == y;
                        assert(keys@[t] == y);
                    }
                    if keys@.contains(y) {
                        let t = choose|t: int| 0 <= t < keys@.len() && keys@[t] == y;
                        assert(before[t] == y);
                    }
                } else {
                    assert(keys@[before.len() as int] == x);
                }
            }
        } else {
            assert forall|y: u32| keys@.contains(y) <==> #[trigger] occurrences(s.take(i + 1), y) > 0 by {
                if y != x {
                    assert(occurrences(s.take(i + 1), y) == occurrences(s.take(i as int), y));
                }
            }
        }
        assert forall|y: u32| #[trigger] occurrences(s.take(i + 1), y) > 0 implies counts@.contains_key(y) by {
            if y != x {
                assert(occurrences(s.take(i + 1), y) == occurrences(s.take(i as int), y));
            }
        }
        i = i + 1;
    }
    assert(s.take(i as int) =~= s);
    let ghost unsorted = keys@;
    let sorted = sorted_buckets(keys);
    proof {
        unsorted.lemma_multiset_has_no_duplicates();
        sorted@.lemma_multiset_has_no_duplicates_conv();
        unsorted.to_multiset_ensures();
        sorted@.to_multiset_ensures();
    }
    let mut out: Vec<(u32, u64)> = Vec::new();
    let mut k: usize = 0;
    while k < sorted.len()
        invariant
            s == buckets@,
            forall|x: u32| #[trigger] counts@.contains_key(x) ==> counts@[x] == occurrences(s, x),
            forall|x: u32| #[trigger] occurrences(s, x) > 0 ==> counts@.contains_key(x),
            forall|x: u32| unsorted.contains(x) <==> #[trigger] occurrences(s, x) > 0,
            forall|x: u32| #[trigger] sorted@.to_multiset().count(x) == unsorted.to_multiset().count(x),
            sorted@.no_duplicates(),
            k <= sorted@.len(),
            out@.len() == k,
            forall|j: int|
                0 <= j < k ==> #[trigger] out@[j] == (sorted@[j], occurrences(s, sorted@[j]) as u64),
        decreases sorted@.len() - k,
    {
        let x = sorted[k];
        proof {
            sorted@.to_multiset_ensures();
            unsorted.to_multiset_ensures();
            assert(sorted@.to_multiset().count(x) > 0);
            assert(unsorted.contains(x));
            lemma_occurrences_le(s, x);
        }
        let c: u64 = match counts.get(&x) {
            Some(c) => *c,
            None => 0,
        };
        out.push((x, c));
        k = k + 1;
    }
    proof {
        assert(bucket_keys(out@) =~= sorted@);
        assert forall|x: u32| s.contains(x) <==> bucket_keys(out@).contains(x) by {
            lemma_occurrences_contains(s, x);
            sorted@.to_multiset_ensures();
            unsorted.to_multiset_ensures();
            if sorted@.contains(x) {
                assert(sorted@.to_multiset().count(x) > 0);
            }
            if unsorted.contains(x) {
                assert(unsorted.to_multiset().count(x) > 0);
            }
        }
        assert forall|i: int, j: int| 0 <= i < j < out@.len() implies out@[i].0 < out@[j].0 by {
            assert(sorted@[i] != sorted@[j]);
        }
    }
    out
}

/// The most frequent of `buckets`, ties going to the smallest bucket.
pub fn mode_bucket(buckets: &Vec<u32>) -> (r: u32)
    requires
        buckets@.len() > 0,
    ensures
        is_mode_of(buckets@, r),
{
    let h = bucket_histogram(buckets);
    proof {
        assert(buckets@.contains(buckets@[0]));
        assert(bucket_keys(h@).contains(buckets@[0]));
    }
    let mut best: usize = 0;
    let mut i: usize = 1;
    while i < h.len()
        invariant
            1 <= i <= h@.len(),
            best < i,
            forall|j: int| 0 <= j < i ==> (#[trigger] h@[j]).1 <= h@[best as int].1 && (h@[j].1
                == h@[best as int].1 ==> best <= j),
        decreases h@.len() - i,
    {
        if h[i].1 > h[best].1 {
            best = i;
        }
        i = i + 1;
    }
    let r = h[best].0;
    proof {
        assert(bucket_keys(h@)[best as int] == r);
        assert forall|x: u32| buckets@.contains(x) implies #[trigger] occurrences(buckets@, x)
            <= occurrences(buckets@, r) && (occurrences(buckets@, x) == occurrences(buckets@, r)
            ==> r <= x) by {
            assert(bucket_keys(h@).contains(x));
            let j = choose|j: int| 0 <= j < bucket_keys(h@).len() && bucket_keys(h@)[j] == x;
            assert(h@[j].0 == x);
            assert(h@[j].1 <= h@[best as int].1);
            if occurrences(buckets@, x) == occurrences(buckets@, r) {
                assert(best <= j);
                if best < j {
                    assert(h@[best as int].0 < h@[j].0);
                }
            }
        }
    }
    r
}

proof fn lemma_occurrences_contains(s: Seq<u32>, x: u32)
    ensures
        occurrences(s, x) > 0 <==> s.contains(x),
    decreases s.len(),
{
    if s.len() > 0 {
        lemma_occurrences_contains(s.drop_last(), x);
        if s.drop_last().contains(x) {
            let t = choose|t: int| 0 <= t < s.drop_last().len() && s.drop_last()[t] == x;
            assert(s[t] == x);
        }
        if s.contains(x) {
            let t = choose|t: int| 0 <= t < s.len() && s[t] == x;
            if t < s.len() - 1 {
                assert(s.drop_last()[t] == x);
            }
        }
    }
}

} // verus!

//! Choosing which lines of a data set to draw as a random sample.
use vstd::prelude::*;

verus! {

/// Why a sample cannot be drawn.
#[derive(Clone, Copy, Debug, PartialEq, Eq, Structural)]
pub enum SampleError {
    /// A sample with replacement was asked for zero lines.
    InvalidReplacementSize,
    /// A sample without replacement was asked for zero lines, or for more
    /// lines than there are.
    InvalidSize,
    /// There is no line to draw from.
    NoLines,
}

/// Relies on `rand::distributions::Uniform::from(0..n)` sampled with
/// `rand::thread_rng()`: a value in `[0, n)`, which `Uniform::new` panics
/// without when `n` is zero.
#[verifier::external_body]
fn random_below(n: usize) -> (r: usize)
    requires
        n > 0,
    ensures
        r < n,
{
    rand::distributions::Distribution::sample(
        &rand::distributions::Uniform::from(0..n),
        &mut rand::thread_rng(),
    )
}

/// Relies on `rand::seq::SliceRandom::shuffle` with `rand::thread_rng()`:
/// it only swaps elements, so the same elements remain.
#[verifier::external_body]
fn shuffle(v: &mut Vec<usize>)
    ensures
        final(v)@.to_multiset() == old(v)@.to_multiset(),
{
    rand::seq::SliceRandom::shuffle(v.as_mut_slice(), &mut rand::thread_rng())
}

/// Picks the indices of the lines to print out of `n_lines`. With
/// replacement, `size + 1` independent draws are made, one more than
/// `size`; without, `size` distinct lines are taken in random order.
pub fn sample_indices(n_lines: usize, size: u32, with_replacement: bool) -> (r: Result<
    Vec<usize>,
    SampleError,
>)
    ensures
        with_replacement ==> match r {
            Ok(v) => size > 0 && n_lines > 0 && v@.len() == size + 1 && forall|i: int|
                0 <= i < v@.len() ==> #[trigger] v@[i] < n_lines,
            Err(e) => (size == 0 && e == SampleError::InvalidReplacementSize) || (size > 0
                && n_lines == 0 && e == SampleError::NoLines),
        },
        !with_replacement ==> match r {
            Ok(v) => 0 < size <= n_lines && v@.len() == size && v@.no_duplicates() && forall|i: int|
                0 <= i < v@.len() ==> #[trigger] v@[i] < n_lines,
            Err(e) => (size == 0 || size > n_lines) && e == SampleError::InvalidSize,
        },
{
    if with_replacement {
        if size == 0 {
            return Err(SampleError::InvalidReplacementSize);
        }
        if n_lines == 0 {
            return Err(SampleError::NoLines);
        }
        let mut out: Vec<usize> = Vec::new();
        let mut count: u64 = 0;
        while count <= size as u64
            invariant
                n_lines > 0,
                count <= size + 1,
                out@.len() == count,
                forall|i: int| 0 <= i < out@.len() ==> #[trigger] out@[i] < n_lines,
            decreases size + 1 - count,
        {
            out.push(random_below(n_lines));
            count = count + 1;
        }
        Ok(out)
    } else {
        if size == 0 || size as usize > n_lines {
            return Err(SampleError::InvalidSize);
        }
        let mut order: Vec<usize> = Vec::new();
        let mut i: usize = 0;
        while i < n_lines
            invariant
                i <= n_lines,
                order@ == Seq::new(i as nat, |j: int| j as usize),
            decreases n_lines - i,
        {
            order.push(i);
            i = i + 1;
            assert(order@ =~= Seq::new(i as nat, |j: int| j as usize));
        }
        let ghost before = order@;
        proof {
            assert(before.no_duplicates());
        }
        shuffle(&mut order);
        proof {
            lemma_multiset_keeps_distinct_below(before, order@, n_lines as int);
        }
        let mut out: Vec<usize> = Vec::new();
        let mut k: usize = 0;
        while k < size as usize
            invariant
                size as usize <= n_lines,
                order@.len() == n_lines,
                order@.no_duplicates(),
                forall|j: int| 0 <= j < order@.len() ==> #[trigger] order@[j] < n_lines,
                k <= size as usize,
                out@ == order@.take(k as int),
            decreases size as usize - k,
        {
            out.push(order[k]);
            k = k + 1;
            assert(out@ =~= order@.take(k as int));
        }
        Ok(out)
    }
}

proof fn lemma_multiset_keeps_distinct_below(a: Seq<usize>, b: Seq<usize>, n: int)
    requires
        a.no_duplicates(),
        a.len() == n,
        forall|j: int| 0 <= j < a.len() ==> #[trigger] a[j] < n,
        a.to_multiset() == b.to_multiset(),
    ensures
        b.len() == n,
        b.no_duplicates(),
        forall|j: int| 0 <= j < b.len() ==> #[trigger] b[j] < n,
{
    a.lemma_multiset_has_no_duplicates();
    b.lemma_multiset_has_no_duplicates_conv();
    a.to_multiset_ensures();
    b.to_multiset_ensures();
    assert forall|j: int| 0 <= j < b.len() implies #[trigger] b[j] < n by {
        assert(b.to_multiset().count(b[j]) > 0);
        assert(a.contains(b[j]));
    }
}

} // verus!

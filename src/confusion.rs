//! Confusion matrices and the per-class counts and rates drawn from them.
use vstd::prelude::*;

use crate::ratio::Ratio;

verus! {

/// The sum of a sequence of counts.
pub open spec fn seq_sum(s: Seq<u64>) -> int
    decreases s.len(),
{
    if s.len() == 0 {
        0
    } else {
        seq_sum(s.drop_last()) + s.last()
    }
}

/// What the rows of a matrix hold.
pub open spec fn rows_of(m: Seq<Vec<u64>>) -> Seq<Seq<u64>> {
    m.map_values(|r: Vec<u64>| r@)
}

/// The sum of every entry of a matrix.
pub open spec fn matrix_total(m: Seq<Seq<u64>>) -> int
    decreases m.len(),
{
    if m.len() == 0 {
        0
    } else {
        matrix_total(m.drop_last()) + seq_sum(m.last())
    }
}

/// The sum of column `k` of a matrix.
pub open spec fn col_sum(m: Seq<Seq<u64>>, k: int) -> int
    decreases m.len(),
{
    if m.len() == 0 {
        0
    } else {
        col_sum(m.drop_last(), k) + m.last()[k]
    }
}

/// Every row of `m` has `n` entries, and there are `n` rows.
pub open spec fn is_square(m: Seq<Seq<u64>>) -> bool {
    forall|i: int| 0 <= i < m.len() ==> #[trigger] m[i].len() == m.len()
}

proof fn lemma_sum_nonneg(s: Seq<u64>)
    ensures
        seq_sum(s) >= 0,
    decreases s.len(),
{
    if s.len() > 0 {
        lemma_sum_nonneg(s.drop_last());
    }
}

proof fn lemma_entry_le_sum(s: Seq<u64>, k: int)
    requires
        0 <= k < s.len(),
    ensures
        s[k] <= seq_sum(s),
    decreases s.len(),
{
    lemma_sum_nonneg(s.drop_last());
    if k < s.len() - 1 {
        lemma_entry_le_sum(s.drop_last(), k);
    }
}

proof fn lemma_sum_take(s: Seq<u64>, j: int)
    requires
        0 <= j < s.len(),
    ensures
        seq_sum(s.take(j + 1)) == seq_sum(s.take(j)) + s[j],
        seq_sum(s.take(j + 1)) <= seq_sum(s),
    decreases s.len(),
{
    assert(s.take(j + 1).drop_last() =~= s.take(j));
    if j + 1 < s.len() {
        lemma_sum_take(s.drop_last(), j);
        assert(s.drop_last().take(j + 1) =~= s.take(j + 1));
        lemma_sum_nonneg(s.drop_last());
    } else {
        assert(s.take(j + 1) =~= s);
    }
}

proof fn lemma_total_nonneg(m: Seq<Seq<u64>>)
    ensures
        matrix_total(m) >= 0,
    decreases m.len(),
{
    if m.len() > 0 {
        lemma_total_nonneg(m.drop_last());
        lemma_sum_nonneg(m.last());
    }
}

proof fn lemma_total_take(m: Seq<Seq<u64>>, i: int)
    requires
        0 <= i < m.len(),
    ensures
        matrix_total(m.take(i + 1)) == matrix_total(m.take(i)) + seq_sum(m[i]),
        matrix_total(m.take(i + 1)) <= matrix_total(m),
    decreases m.len(),
{
    assert(m.take(i + 1).drop_last() =~= m.take(i));
    if i + 1 < m.len() {
        lemma_total_take(m.drop_last(), i);
        assert(m.drop_last().take(i + 1) =~= m.take(i + 1));
        lemma_sum_nonneg(m.last());
    } else {
        assert(m.take(i + 1) =~= m);
    }
}

proof fn lemma_col_take(m: Seq<Seq<u64>>, i: int, k: int)
    requires
        0 <= i < m.len(),
    ensures
        col_sum(m.take(i + 1), k) == col_sum(m.take(i), k) + m[i][k],
{
    assert(m.take(i + 1).drop_last() =~= m.take(i));
}

/// Row `k` and column `k` together never hold more than the whole matrix:
/// the column, plus the row without its diagonal entry, is at most the total.
proof fn lemma_cross_le_total(m: Seq<Seq<u64>>, n: int, k: int)
    requires
        0 <= k < n,
        forall|i: int| 0 <= i < m.len() ==> #[trigger] m[i].len() == n,
    ensures
        matrix_total(m) >= col_sum(m, k) + (if k < m.len() {
            seq_sum(m[k]) - m[k][k]
        } else {
            0
        }),
    decreases m.len(),
{
    if m.len() > 0 {
        let p = m.drop_last();
        let last = m.last();
        assert(last.len() == n);
        assert forall|i: int| 0 <= i < p.len() implies #[trigger] p[i].len() == n by {
            assert(p[i] == m[i]);
        }
        lemma_cross_le_total(p, n, k);
        lemma_entry_le_sum(last, k);
        if k < p.len() {
            assert(p[k] == m[k]);
        }
    }
}

/// How many of `samples` have predicted row `row` and actual class `col`.
pub open spec fn tally(samples: Seq<(usize, usize)>, row: int, col: int) -> nat
    decreases samples.len(),
{
    if samples.len() == 0 {
        0
    } else {
        tally(samples.drop_last(), row, col) + if samples.last().0 == row && samples.last().1
            == col {
            1nat
        } else {
            0nat
        }
    }
}

proof fn lemma_tally_le(samples: Seq<(usize, usize)>, row: int, col: int)
    ensures
        tally(samples, row, col) <= samples.len(),
    decreases samples.len(),
{
    if samples.len() > 0 {
        lemma_tally_le(samples.drop_last(), row, col);
    }
}

/// Every sample names a predicted row and an actual class below `size`.
pub open spec fn samples_in_range(samples: Seq<(usize, usize)>, size: int) -> bool {
    forall|k: int| 0 <= k < samples.len() ==> #[trigger] samples[k].0 < size && samples[k].1 < size
}

/// Whether `m` is the confusion matrix of `samples` over `size` classes, in
/// descending label order: entry `[i][j]` counts the samples predicted as
/// class `size - 1 - i` whose actual class is `size - 1 - j`.
pub open spec fn is_confusion_of(m: Seq<Seq<u64>>, samples: Seq<(usize, usize)>, size: int) -> bool {
    &&& m.len() == size
    &&& forall|i: int| 0 <= i < size ==> #[trigger] m[i].len() == size
    &&& forall|i: int, j: int|
        0 <= i < size && 0 <= j < size ==> #[trigger] m[i][j] == tally(
            samples,
            size - 1 - i,
            size - 1 - j,
        )
}

proof fn lemma_sum_bump(s: Seq<u64>, j: int)
    requires
        0 <= j < s.len(),
        s[j] < u64::MAX,
    ensures
        seq_sum(s.update(j, (s[j] + 1) as u64)) == seq_sum(s) + 1,
    decreases s.len(),
{
    let t = s.update(j, (s[j] + 1) as u64);
    if j < s.len() - 1 {
        assert(t.drop_last() =~= s.drop_last().update(j, (s[j] + 1) as u64));
        lemma_sum_bump(s.drop_last(), j);
    } else {
        assert(t.drop_last() =~= s.drop_last());
    }
}

proof fn lemma_total_bump(m: Seq<Seq<u64>>, i: int, j: int)
    requires
        0 <= i < m.len(),
        0 <= j < m[i].len(),
        m[i][j] < u64::MAX,
    ensures
        matrix_total(m.update(i, m[i].update(j, (m[i][j] + 1) as u64))) == matrix_total(m) + 1,
    decreases m.len(),
{
    let t = m.update(i, m[i].update(j, (m[i][j] + 1) as u64));
    lemma_sum_bump(m[i], j);
    if i < m.len() - 1 {
        assert(t.drop_last() =~= m.drop_last().update(i, m[i].update(j, (m[i][j] + 1) as u64)));
        lemma_total_bump(m.drop_last(), i, j);
    } else {
        assert(t.drop_last() =~= m.drop_last());
    }
}

} // verus!

verus! {

/// How many distinct class labels occur among `classes`.
pub fn class_count(classes: &Vec<usize>) -> (r: usize)
    ensures
        r == classes@.to_set().len(),
{
    let mut seen: Vec<usize> = Vec::new();
    let mut i: usize = 0;
    while i < classes.len()
        invariant
            i <= classes@.len(),
            seen@.no_duplicates(),
            seen@.to_set() == classes@.take(i as int).to_set(),
            seen@.len() <= i,
        decreases classes@.len() - i,
    {
        let c = classes[i];
        let mut found = false;
        let mut j: usize = 0;
        while j < seen.len()
            invariant
                j <= seen@.len(),
                found == exists|t: int| 0 <= t < j && seen@[t] == c,
            decreases seen@.len() - j,
        {
            if seen[j] == c {
                found = true;
            }
            j = j + 1;
        }
        let ghost pre = classes@.take(i as int);
        let ghost old_seen = seen@;
        assert(classes@.take(i + 1) =~= pre.push(c));
        if !found {
            seen.push(c);
        }
        proof {
            lemma_seen_extends(old_seen, seen@, pre, c);
        }
        i = i + 1;
    }
    proof {
        seen@.unique_seq_to_set();
        assert(classes@.take(i as int) =~= classes@);
    }
    seen.len()
}

/// Adding `c` to a list of the distinct values of `pre`, unless it is there
/// already, gives the distinct values of `pre` followed by `c`.
proof fn lemma_seen_extends(old_seen: Seq<usize>, seen: Seq<usize>, pre: Seq<usize>, c: usize)
    requires
        old_seen.to_set() == pre.to_set(),
        seen == (if old_seen.contains(c) {
            old_seen
        } else {
            old_seen.push(c)
        }),
    ensures
        seen.to_set() == pre.push(c).to_set(),
{
    pre.lemma_push_to_set_commute(c);
    old_seen.lemma_push_to_set_commute(c);
    if old_seen.contains(c) {
        assert(old_seen.to_set().insert(c) =~= old_seen.to_set());
    }
}

/// How a prediction becomes a row of the confusion matrix.
#[derive(Clone, Copy, Debug, PartialEq, Eq, Structural)]
pub enum RowRule {
    /// `floor(prediction + 1 - threshold)`, for a caller's threshold.
    Threshold,
    /// `floor(prediction + 0.5)`, for binary scores.
    Nearest,
    /// `floor(prediction)`, for predictions that already name a class.
    Truncate,
}

/// Picks the rule: a threshold when one is given, rounding to the nearest
/// class for two classes, and truncation otherwise.
pub fn row_rule(has_threshold: bool, size: usize) -> (r: RowRule)
    ensures
        r == (if has_threshold {
            RowRule::Threshold
        } else if size == 2 {
            RowRule::Nearest
        } else {
            RowRule::Truncate
        }),
{
    if has_threshold {
        RowRule::Threshold
    } else if size == 2 {
        RowRule::Nearest
    } else {
        RowRule::Truncate
    }
}

/// Counts `(predicted row, actual class)` samples into a `size` by `size`
/// matrix in descending label order, so that for two classes it reads
/// `TP FP / FN TN`.
pub fn confusion_matrix(samples: &Vec<(usize, usize)>, size: usize) -> (r: Vec<Vec<u64>>)
    requires
        samples_in_range(samples@, size as int),
    ensures
        is_confusion_of(rows_of(r@), samples@, size as int),
        matrix_total(rows_of(r@)) == samples@.len(),
{
    let mut m: Vec<Vec<u64>> = Vec::new();
    let mut i: usize = 0;
    while i < size
        invariant
            i <= size,
            m@.len() == i,
            forall|a: int| 0 <= a < i ==> #[trigger] m@[a]@.len() == size,
            forall|a: int, b: int| 0 <= a < i && 0 <= b < size ==> #[trigger] m@[a]@[b] == 0,
            matrix_total(rows_of(m@)) == 0,
        decreases size - i,
    {
        let mut row: Vec<u64> = Vec::new();
        let mut j: usize = 0;
        while j < size
            invariant
                j <= size,
                row@.len() == j,
                forall|b: int| 0 <= b < j ==> #[trigger] row@[b] == 0,
                seq_sum(row@) == 0,
            decreases size - j,
        {
            assert(row@.push(0).drop_last() =~= row@);
            row.push(0);
            j = j + 1;
        }
        let ghost before = rows_of(m@);
        m.push(row);
        assert(rows_of(m@).drop_last() =~= before);
        i = i + 1;
    }
    assert(rows_of(m@).len() == size);
    let mut k: usize = 0;
    while k < samples.len()
        invariant
            k <= samples@.len(),
            samples_in_range(samples@, size as int),
            is_confusion_of(rows_of(m@), samples@.take(k as int), size as int),
            matrix_total(rows_of(m@)) == k,
        decreases samples@.len() - k,
    {
        let (p, a) = samples[k];
        assert(samples@[k as int].0 < size && samples@[k as int].1 < size);
        let i = size - 1 - p;
        let j = size - 1 - a;
        let ghost pre = samples@.take(k as int);
        let ghost post = samples@.take(k + 1);
        assert(post.drop_last() =~= pre);
        assert(rows_of(m@)[i as int] == m@[i as int]@);
        proof {
            lemma_tally_le(pre, p as int, a as int);
        }
        let v = m[i][j];
        let ghost old_rows = rows_of(m@);
        m[i].set(j, v + 1);
        assert(rows_of(m@) =~= old_rows.update(i as int, old_rows[i as int].update(j as int, (v + 1) as u64)));
        proof {
            lemma_total_bump(old_rows, i as int, j as int);
            assert forall|x: int, y: int| 0 <= x < size && 0 <= y < size implies #[trigger] rows_of(m@)[x][y]
                == tally(post, size - 1 - x, size - 1 - y) by {
                assert(old_rows[x][y] == tally(pre, size - 1 - x, size - 1 - y));
            }
        }
        k = k + 1;
    }
    assert(samples@.take(k as int) =~= samples@);
    m
}

} // verus!

verus! {

/// Per-class counts and rates of a confusion matrix. `label` is the class's
/// index in the matrix. As the matrix is laid out, `row_excess` counts what
/// was predicted as the class but is another, and `col_excess` what is the
/// class but was predicted as another. `fpr` sets `col_excess` against `tn`,
/// `fnr` sets `row_excess` against `tp`, and `tnr` sets `tn` against
/// `row_excess`, not against `col_excess`: whether that pairing, and the
/// naming of the two excesses, is intended is an open question.
#[derive(Clone, Copy, Debug, PartialEq, Eq, Structural)]
pub struct CMatrixStats {
    pub label: usize,
    pub tp: u64,
    pub row_excess: u64,
    pub col_excess: u64,
    pub tn: u64,
    pub fpr: Ratio,
    pub tpr: Ratio,
    pub fnr: Ratio,
    pub tnr: Ratio,
}

/// The diagonal entry of class `k`.
pub open spec fn true_pos(m: Seq<Seq<u64>>, k: int) -> int {
    m[k][k] as int
}

/// Row `k` without its diagonal entry.
pub open spec fn row_excess(m: Seq<Seq<u64>>, k: int) -> int {
    seq_sum(m[k]) - m[k][k]
}

/// Column `k` without its diagonal entry.
pub open spec fn col_excess(m: Seq<Seq<u64>>, k: int) -> int {
    col_sum(m, k) - m[k][k]
}

/// Everything outside row `k` and column `k`.
pub open spec fn true_neg(m: Seq<Seq<u64>>, k: int) -> int {
    matrix_total(m) - true_pos(m, k) - row_excess(m, k) - col_excess(m, k)
}

/// The counts and rates of class `k`.
pub open spec fn class_stats(m: Seq<Seq<u64>>, k: int) -> CMatrixStats {
    let tp = true_pos(m, k);
    let re = row_excess(m, k);
    let ce = col_excess(m, k);
    let tn = true_neg(m, k);
    CMatrixStats {
        label: k as usize,
        tp: tp as u64,
        row_excess: re as u64,
        col_excess: ce as u64,
        tn: tn as u64,
        fpr: Ratio { num: ce as u64, den: (ce + tn) as u64 },
        tpr: Ratio { num: tp as u64, den: (tp + re) as u64 },
        fnr: Ratio { num: re as u64, den: (re + tp) as u64 },
        tnr: Ratio { num: tn as u64, den: (tn + re) as u64 },
    }
}

/// For every class, the diagonal entry, the rest of its row, the rest of its
/// column and everything else make up the whole matrix, and none of the four
/// is negative.
pub proof fn lemma_class_counts_partition(m: Seq<Seq<u64>>, k: int)
    requires
        is_square(m),
        0 <= k < m.len(),
    ensures
        true_pos(m, k) + row_excess(m, k) + col_excess(m, k) + true_neg(m, k) == matrix_total(m),
        true_pos(m, k) >= 0,
        row_excess(m, k) >= 0,
        col_excess(m, k) >= 0,
        true_neg(m, k) >= 0,
{
    lemma_cross_le_total(m, m.len() as int, k);
    lemma_entry_le_sum(m[k], k);
    lemma_col_ge_entry(m, k, k);
}

proof fn lemma_col_ge_entry(m: Seq<Seq<u64>>, i: int, k: int)
    requires
        0 <= i < m.len(),
    ensures
        col_sum(m, k) >= m[i][k],
    decreases m.len(),
{
    lemma_col_nonneg(m.drop_last(), k);
    if i < m.len() - 1 {
        lemma_col_ge_entry(m.drop_last(), i, k);
    }
}

proof fn lemma_col_nonneg(m: Seq<Seq<u64>>, k: int)
    ensures
        col_sum(m, k) >= 0,
    decreases m.len(),
{
    if m.len() > 0 {
        lemma_col_nonneg(m.drop_last(), k);
    }
}

/// The sum of all entries of a confusion matrix is the number of samples
/// counted into it.
pub proof fn lemma_confusion_total(
    m: Seq<Seq<u64>>,
    samples: Seq<(usize, usize)>,
    size: int,
)
    requires
        samples_in_range(samples, size),
        is_confusion_of(m, samples, size),
    ensures
        matrix_total(m) == samples.len(),
    decreases samples.len(),
{
    if samples.len() == 0 {
        lemma_total_zero(m);
    } else {
        let pre = samples.drop_last();
        let (p, a) = samples.last();
        assert(samples[samples.len() - 1] == samples.last());
        let i = size - 1 - p;
        let j = size - 1 - a;
        lemma_tally_le(pre, p as int, a as int);
        let v = tally(pre, p as int, a as int);
        let prev = m.update(i, m[i].update(j, v as u64));
        assert forall|k: int| 0 <= k < pre.len() implies #[trigger] pre[k].0 < size && pre[k].1
            < size by {
            assert(pre[k] == samples[k]);
        }
        assert forall|x: int, y: int| 0 <= x < size && 0 <= y < size implies #[trigger] prev[x][y]
            == tally(pre, size - 1 - x, size - 1 - y) by {
            assert(m[x][y] == tally(samples, size - 1 - x, size - 1 - y));
        }
        assert(is_confusion_of(prev, pre, size));
        lemma_confusion_total(prev, pre, size);
        assert(m[i][j] == v + 1);
        assert(prev[i].update(j, (prev[i][j] + 1) as u64) =~= m[i]);
        assert(m =~= prev.update(i, m[i]));
        lemma_total_bump(prev, i, j);
    }
}

proof fn lemma_total_zero(m: Seq<Seq<u64>>)
    requires
        forall|i: int, j: int| 0 <= i < m.len() && 0 <= j < m[i].len() ==> #[trigger] m[i][j] == 0,
    ensures
        matrix_total(m) == 0,
    decreases m.len(),
{
    if m.len() > 0 {
        let p = m.drop_last();
        assert forall|i: int, j: int| 0 <= i < p.len() && 0 <= j < p[i].len() implies #[trigger] p[i][j] == 0 by {
            assert(p[i] == m[i]);
        }
        lemma_total_zero(p);
        lemma_sum_zero(m.last());
    }
}

proof fn lemma_sum_zero(s: Seq<u64>)
    requires
        forall|j: int| 0 <= j < s.len() ==> #[trigger] s[j] == 0,
    ensures
        seq_sum(s) == 0,
    decreases s.len(),
{
    if s.len() > 0 {
        lemma_sum_zero(s.drop_last());
    }
}

} // verus!

verus! {

fn row_total(row: &Vec<u64>) -> (r: u64)
    requires
        seq_sum(row@) <= u64::MAX,
    ensures
        r == seq_sum(row@),
{
    let mut sum: u64 = 0;
    let mut j: usize = 0;
    while j < row.len()
        invariant
            j <= row@.len(),
            seq_sum(row@) <= u64::MAX,
            sum == seq_sum(row@.take(j as int)),
        decreases row@.len() - j,
    {
        proof {
            lemma_sum_take(row@, j as int);
        }
        sum = sum + row[j];
        j = j + 1;
    }
    assert(row@.take(j as int) =~= row@);
    sum
}

fn column_total(matrix: &Vec<Vec<u64>>, k: usize) -> (r: u64)
    requires
        forall|i: int| 0 <= i < matrix@.len() ==> k < #[trigger] matrix@[i]@.len(),
        col_sum(rows_of(matrix@), k as int) <= u64::MAX,
    ensures
        r == col_sum(rows_of(matrix@), k as int),
{
    let ghost g = rows_of(matrix@);
    let mut sum: u64 = 0;
    let mut i: usize = 0;
    while i < matrix.len()
        invariant
            i <= matrix@.len(),
            g == rows_of(matrix@),
            forall|x: int| 0 <= x < matrix@.len() ==> k < #[trigger] matrix@[x]@.len(),
            col_sum(g, k as int) <= u64::MAX,
            sum == col_sum(g.take(i as int), k as int),
        decreases matrix@.len() - i,
    {
        proof {
            lemma_col_take(g, i as int, k as int);
            lemma_col_prefix_le(g, i + 1, k as int);
            lemma_col_nonneg(g.take(i as int), k as int);
            assert(g[i as int] == matrix@[i as int]@);
        }
        sum = sum + matrix[i][k];
        i = i + 1;
    }
    assert(g.take(i as int) =~= g);
    sum
}

proof fn lemma_col_prefix_le(m: Seq<Seq<u64>>, i: int, k: int)
    requires
        0 <= i <= m.len(),
    ensures
        col_sum(m.take(i), k) <= col_sum(m, k),
    decreases m.len() - i,
{
    if i < m.len() {
        lemma_col_take(m, i, k);
        lemma_col_prefix_le(m, i + 1, k);
    } else {
        assert(m.take(i) =~= m);
    }
}

fn grand_total(matrix: &Vec<Vec<u64>>) -> (r: u64)
    requires
        matrix_total(rows_of(matrix@)) <= u64::MAX,
    ensures
        r == matrix_total(rows_of(matrix@)),
{
    let ghost g = rows_of(matrix@);
    let mut sum: u64 = 0;
    let mut i: usize = 0;
    while i < matrix.len()
        invariant
            i <= matrix@.len(),
            g == rows_of(matrix@),
            matrix_total(g) <= u64::MAX,
            sum == matrix_total(g.take(i as int)),
        decreases matrix@.len() - i,
    {
        proof {
            lemma_total_take(g, i as int);
            lemma_total_nonneg(g.take(i as int));
            assert(g[i as int] == matrix@[i as int]@);
        }
        let row_sum = row_total(&matrix[i]);
        sum = sum + row_sum;
        i = i + 1;
    }
    assert(g.take(i as int) =~= g);
    sum
}

/// The counts and rates of every class of a square matrix, by index.
pub fn confusion_matrix_stats(matrix: &Vec<Vec<u64>>) -> (r: Vec<CMatrixStats>)
    requires
        is_square(rows_of(matrix@)),
        matrix_total(rows_of(matrix@)) <= u64::MAX,
    ensures
        r@.len() == matrix@.len(),
        forall|k: int| 0 <= k < r@.len() ==> #[trigger] r@[k] == class_stats(rows_of(matrix@), k),
{
    let ghost g = rows_of(matrix@);
    let size = matrix.len();
    let total = grand_total(matrix);
    let mut stats: Vec<CMatrixStats> = Vec::new();
    let mut k: usize = 0;
    while k < size
        invariant
            size == matrix@.len(),
            g == rows_of(matrix@),
            is_square(g),
            total == matrix_total(g),
            total <= u64::MAX,
            k <= size,
            stats@.len() == k,
            forall|x: int| 0 <= x < k ==> #[trigger] stats@[x] == class_stats(g, x),
        decreases size - k,
    {
        proof {
            lemma_class_counts_partition(g, k as int);
            lemma_cross_le_total(g, size as int, k as int);
            lemma_col_ge_entry(g, k as int, k as int);
            assert forall|i: int| 0 <= i < matrix@.len() implies k < #[trigger] matrix@[i]@.len() by {
                assert(g[i] == matrix@[i]@);
            }
            assert(g[k as int] == matrix@[k as int]@);
        }
        let rs = row_total(&matrix[k]);
        let cs = column_total(matrix, k);
        let tp = matrix[k][k];
        let re = rs - tp;
        let ce = cs - tp;
        let tn = total - tp - re - ce;
        let s = CMatrixStats {
            label: k,
            tp,
            row_excess: re,
            col_excess: ce,
            tn,
            fpr: Ratio { num: ce, den: ce + tn },
            tpr: Ratio { num: tp, den: tp + re },
            fnr: Ratio { num: re, den: re + tp },
            tnr: Ratio { num: tn, den: tn + re },
        };
        assert(s == class_stats(g, k as int));
        stats.push(s);
        k = k + 1;
    }
    stats
}

} // verus!

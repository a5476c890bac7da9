//! Precision, recall, F1 and false-positive rate of a binary classifier at
//! a rising sequence of decision thresholds.
use vstd::prelude::*;

use crate::ratio::Ratio;

verus! {

/// The number of thresholds swept: `0.05 * i` for `i` in `1..=20`.
pub const SWEEP_STEPS: usize = 20;

/// One threshold's counts and rates. `step` is `i` of the threshold
/// `0.05 * i`.
#[derive(Clone, Copy, Debug, PartialEq, Eq, Structural)]
pub struct SweepRow {
    pub step: usize,
    pub true_pos: u64,
    pub false_pos: u64,
    pub false_neg: u64,
    pub true_neg: u64,
    pub precision: Ratio,
    pub recall: Ratio,
    pub f1: Ratio,
    pub fpr: Ratio,
}

/// How many samples are predicted positive at `step` exactly when
/// `positive` holds, and have actual class `class`. A sample is a pair of
/// its level, the number of thresholds that its prediction reaches, and its
/// actual class; it is predicted positive at every step up to its level.
pub open spec fn sweep_count(
    samples: Seq<(usize, usize)>,
    step: int,
    positive: bool,
    class: int,
) -> nat
    decreases samples.len(),
{
    if samples.len() == 0 {
        0
    } else {
        let (level, actual) = samples.last();
        sweep_count(samples.drop_last(), step, positive, class) + if (level >= step) == positive
            && actual == class {
            1nat
        } else {
            0nat
        }
    }
}

/// The F1 score `2 * recall * precision / (recall + precision)` as an exact
/// ratio; it is undefined whenever there is no true positive.
pub open spec fn f1_ratio(tp: int, fp: int, fneg: int) -> Ratio {
    if tp == 0 {
        Ratio { num: 0, den: 0 }
    } else {
        Ratio { num: (2 * tp) as u64, den: (2 * tp + fp + fneg) as u64 }
    }
}

/// The row of threshold step `step`.
pub open spec fn sweep_row(samples: Seq<(usize, usize)>, step: int) -> SweepRow {
    let tp = sweep_count(samples, step, true, 1) as int;
    let fp = sweep_count(samples, step, true, 0) as int;
    let fneg = sweep_count(samples, step, false, 1) as int;
    let tn = sweep_count(samples, step, false, 0) as int;
    SweepRow {
        step: step as usize,
        true_pos: tp as u64,
        false_pos: fp as u64,
        false_neg: fneg as u64,
        true_neg: tn as u64,
        precision: Ratio { num: tp as u64, den: (tp + fp) as u64 },
        recall: Ratio { num: tp as u64, den: (tp + fneg) as u64 },
        f1: f1_ratio(tp, fp, fneg),
        fpr: Ratio { num: fp as u64, den: (fp + tn) as u64 },
    }
}

proof fn lemma_counts_bounded(samples: Seq<(usize, usize)>, step: int)
    ensures
        sweep_count(samples, step, true, 1) + sweep_count(samples, step, true, 0) + sweep_count(
            samples,
            step,
            false,
            1,
        ) + sweep_count(samples, step, false, 0) <= samples.len(),
    decreases samples.len(),
{
    if samples.len() > 0 {
        lemma_counts_bounded(samples.drop_last(), step);
    }
}

/// Counts one threshold step.
fn sweep_step(samples: &Vec<(usize, usize)>, step: usize) -> (r: SweepRow)
    requires
        samples@.len() <= u64::MAX / 2,
    ensures
        r == sweep_row(samples@, step as int),
{
    let mut tp: u64 = 0;
    let mut fp: u64 = 0;
    let mut fneg: u64 = 0;
    let mut tn: u64 = 0;
    let mut k: usize = 0;
    while k < samples.len()
        invariant
            k <= samples@.len(),
            samples@.len() <= u64::MAX / 2,
            tp == sweep_count(samples@.take(k as int), step as int, true, 1),
            fp == sweep_count(samples@.take(k as int), step as int, true, 0),
            fneg == sweep_count(samples@.take(k as int), step as int, false, 1),
            tn == sweep_count(samples@.take(k as int), step as int, false, 0),
        decreases samples@.len() - k,
    {
        let ghost pre = samples@.take(k as int);
        assert(samples@.take(k + 1).drop_last() =~= pre);
        proof {
            lemma_counts_bounded(pre, step as int);
        }
        let (level, actual) = samples[k];
        if level >= step && actual == 1 {
            tp = tp + 1;
        } else if level >= step && actual == 0 {
            fp = fp + 1;
        } else if level < step && actual == 1 {
            fneg = fneg + 1;
        } else if level < step && actual == 0 {
            tn = tn + 1;
        }
        k = k + 1;
    }
    assert(samples@.take(k as int) =~= samples@);
    proof {
        lemma_counts_bounded(samples@, step as int);
    }
    let f1 = if tp == 0 {
        Ratio { num: 0, den: 0 }
    } else {
        Ratio { num: 2 * tp, den: 2 * tp + fp + fneg }
    };
    SweepRow {
        step,
        true_pos: tp,
        false_pos: fp,
        false_neg: fneg,
        true_neg: tn,
        precision: Ratio { num: tp, den: tp + fp },
        recall: Ratio { num: tp, den: tp + fneg },
        f1,
        fpr: Ratio { num: fp, den: fp + tn },
    }
}

/// One row per threshold step `1..=SWEEP_STEPS`, in rising order. Each
/// sample is its level, the number of steps whose threshold its prediction
/// reaches, and its actual class; classes other than `0` and `1` are not
/// counted.
pub fn threshold_table_stats(samples: &Vec<(usize, usize)>) -> (r: Vec<SweepRow>)
    requires
        samples@.len() <= u64::MAX / 2,
    ensures
        r@.len() == SWEEP_STEPS,
        forall|i: int| 0 <= i < r@.len() ==> #[trigger] r@[i] == sweep_row(samples@, i + 1),
{
    let mut out: Vec<SweepRow> = Vec::new();
    let mut step: usize = 1;
    while step <= SWEEP_STEPS
        invariant
            1 <= step <= SWEEP_STEPS + 1,
            samples@.len() <= u64::MAX / 2,
            out@.len() == step - 1,
            forall|i: int| 0 <= i < out@.len() ==> #[trigger] out@[i] == sweep_row(samples@, i + 1),
        decreases SWEEP_STEPS + 1 - step,
    {
        let row = sweep_step(samples, step);
        out.push(row);
        step = step + 1;
    }
    out
}

} // verus!

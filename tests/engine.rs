use st::confusion::{class_count, confusion_matrix, confusion_matrix_stats, row_rule, RowRule};
use st::dump::{dump_nodes, parse_node};
use st::features::{bucket_hashes, hash_trick, to_byte_histogram};
use st::ratio::Ratio;
use st::sampling::{sample_indices, SampleError};
use st::summary::{bucket_histogram, mode_bucket, quintiles, QuintilePoint};
use st::table::columns;
use st::sweep::{threshold_table_stats, SWEEP_STEPS};
use st::text::{split_str, str_to_vector, to_matrix, to_tuple, to_vector};

fn parse_f32(b: &[u8]) -> Result<f32, std::num::ParseFloatError> {
    String::from_utf8_lossy(b).trim().parse::<f32>()
}

fn parse_f64(b: &[u8]) -> Result<f64, std::num::ParseFloatError> {
    String::from_utf8_lossy(b).trim().parse::<f64>()
}

fn row_of(prediction: f32, threshold: f32) -> usize {
    (prediction + (1.0 - threshold)) as usize
}

#[test]
fn split_keeps_empty_fields() {
    let parts = split_str("a,,b,", ",");
    assert_eq!(parts, vec![b"a".to_vec(), vec![], b"b".to_vec(), vec![]]);
    let parts = split_str("x--y-z", "--");
    assert_eq!(parts, vec![b"x".to_vec(), b"y-z".to_vec()]);
    assert_eq!(split_str("", ","), vec![Vec::<u8>::new()]);
}

#[test]
fn split_on_empty_separator_matches_str_split() {
    for s in ["", "ab", "h\u{e9}\u{1F600}!"] {
        let expected: Vec<Vec<u8>> = s.split("").map(|p| p.as_bytes().to_vec()).collect();
        assert_eq!(split_str(s, ""), expected);
    }
    assert_eq!(split_str("ab", ""), vec![vec![], b"a".to_vec(), b"b".to_vec(), vec![]]);
}

#[test]
fn str_to_vector_with_empty_separator() {
    let r = str_to_vector("12", "", parse_f32);
    assert!(r.is_err());
    let v = str_to_vector("12", "", |b: &[u8]| Ok::<usize, ()>(b.len())).unwrap();
    assert_eq!(v, vec![0, 1, 1, 0]);
}

#[test]
fn base_rates_parse_in_order() {
    let v = str_to_vector("0.1, 0.2,0.7", ",", parse_f32).unwrap();
    assert_eq!(v, vec![0.1f32, 0.2, 0.7]);
}

#[test]
fn base_rates_report_the_first_bad_field() {
    let r = str_to_vector("0.1;x;y", ";", parse_f32);
    assert!(r.is_err());
}

#[test]
fn vector_skips_header_and_blank_lines() {
    let v = to_vector("value\n1.5\n\n2.5\n", true, parse_f64).unwrap();
    assert_eq!(v, vec![1.5, 2.5]);
    let v = to_vector("1\n2\n", false, parse_f64).unwrap();
    assert_eq!(v, vec![1.0, 2.0]);
}

#[test]
fn vector_reports_the_bad_line() {
    let e = to_vector("1\n2\nabc\n4", false, parse_f64).unwrap_err();
    assert_eq!(e.line, 2);
    assert_eq!(e.column, 0);
}

#[test]
fn tuples_pass_over_misshapen_lines() {
    let (rows, skipped) = to_tuple("0.9,1\n0.2\n\n0.6, 1\n1,2,3\n", parse_f32);
    assert_eq!(rows, vec![(0.9, 1.0), (0.6, 1.0)]);
    assert_eq!(skipped, vec![1, 4]);
}

#[test]
fn tuples_skip_a_bad_value() {
    let (rows, skipped) = to_tuple("0.9,1\n0.2\nx,0\n0.3,0\n", parse_f32);
    assert_eq!(rows, vec![(0.9f32, 1.0f32), (0.3, 0.0)]);
    assert_eq!(skipped, vec![1, 2]);
    let (rows, skipped) = to_tuple("0.9,1\n0.5,q\n", parse_f32);
    assert_eq!(rows, vec![(0.9f32, 1.0f32)]);
    assert_eq!(skipped, vec![1]);
}

#[test]
fn matrix_holds_out_the_label_column() {
    let (x, y) = to_matrix("a,b,c\n1,2,3\n4,5,6\n", 1, true, parse_f64).unwrap();
    assert_eq!(x, vec![vec![1.0, 3.0], vec![4.0, 6.0]]);
    assert_eq!(y, vec![2.0, 5.0]);
    let (x, y) = to_matrix("1,2\n3,4\n", 1000000, false, parse_f64).unwrap();
    assert_eq!(x, vec![vec![1.0, 2.0], vec![3.0, 4.0]]);
    assert!(y.is_empty());
}

#[test]
fn matrix_reports_line_and_column() {
    let e = to_matrix("1,2\n3,x\n", 0, false, parse_f64).unwrap_err();
    assert_eq!((e.line, e.column), (1, 1));
}

#[test]
fn class_count_counts_distinct_labels() {
    assert_eq!(class_count(&vec![0, 1, 1, 0, 2]), 3);
    assert_eq!(class_count(&vec![]), 0);
}

#[test]
fn row_rule_follows_threshold_then_size() {
    assert_eq!(row_rule(true, 2), RowRule::Threshold);
    assert_eq!(row_rule(false, 2), RowRule::Nearest);
    assert_eq!(row_rule(false, 3), RowRule::Truncate);
}

#[test]
fn binary_scenario_at_half_threshold() {
    let tuples = [(0.9f32, 1usize), (0.2, 0), (0.6, 1), (0.3, 0)];
    let samples: Vec<(usize, usize)> = tuples.iter().map(|&(p, a)| (row_of(p, 0.5), a)).collect();
    let size = class_count(&samples.iter().map(|s| s.1).collect());
    assert_eq!(size, 2);
    let m = confusion_matrix(&samples, size);
    assert_eq!(m, vec![vec![2, 0], vec![0, 2]]);
    let stats = confusion_matrix_stats(&m);
    let class1 = &stats[0];
    assert_eq!((class1.tp, class1.col_excess, class1.row_excess, class1.tn), (2, 0, 0, 2));
    assert_eq!(class1.tpr, Ratio { num: 2, den: 2 });
    assert_eq!(class1.fpr, Ratio { num: 0, den: 2 });
}

#[test]
fn confusion_entries_sum_to_sample_count() {
    let samples = vec![(0, 0), (1, 2), (2, 2), (2, 1), (0, 0), (1, 1), (2, 0)];
    let m = confusion_matrix(&samples, 3);
    let total: u64 = m.iter().map(|r| r.iter().sum::<u64>()).sum();
    assert_eq!(total, samples.len() as u64);
    // descending orientation: row 0 is class 2 predicted, column 0 class 2 actual
    assert_eq!(m[0], vec![1, 1, 1]);
    assert_eq!(m[2][2], 2);
}

#[test]
fn class_counts_partition_the_total() {
    let m = vec![vec![5, 1, 0], vec![2, 7, 3], vec![0, 4, 9]];
    let total: u64 = 31;
    for s in confusion_matrix_stats(&m) {
        assert_eq!(s.tp + s.row_excess + s.col_excess + s.tn, total);
    }
    let s = confusion_matrix_stats(&m);
    assert_eq!(s[1].tp, 7);
    assert_eq!(s[1].row_excess, 5);
    assert_eq!(s[1].col_excess, 5);
    assert_eq!(s[1].tn, 14);
    assert_eq!(s[1].tnr, Ratio { num: 14, den: 19 });
    assert_eq!(s[1].fnr, Ratio { num: 5, den: 12 });
}

#[test]
fn empty_class_has_undefined_rates() {
    let s = confusion_matrix_stats(&vec![vec![0, 0], vec![0, 3]]);
    assert_eq!(s[0].tpr, Ratio { num: 0, den: 0 });
}

#[test]
fn sweep_counts_each_threshold() {
    // levels: how many thresholds 0.05 * i each prediction reaches
    let samples = vec![(18, 1), (4, 0), (12, 1), (6, 0)];
    let rows = threshold_table_stats(&samples);
    assert_eq!(rows.len(), SWEEP_STEPS);
    let at_half = rows[9];
    assert_eq!(at_half.step, 10);
    assert_eq!((at_half.true_pos, at_half.false_pos, at_half.false_neg, at_half.true_neg), (2, 0, 0, 2));
    assert_eq!(at_half.f1, Ratio { num: 4, den: 4 });
    let at_first = rows[0];
    assert_eq!(at_first.precision, Ratio { num: 2, den: 4 });
    assert_eq!(at_first.f1, Ratio { num: 4, den: 6 });
    let last = rows[19];
    assert_eq!(last.true_pos, 0);
    assert_eq!(last.f1, Ratio { num: 0, den: 0 });
    assert_eq!(last.fpr, Ratio { num: 0, den: 2 });
}

#[test]
fn sweep_ignores_other_classes() {
    let rows = threshold_table_stats(&vec![(20, 2), (0, 7)]);
    for r in rows {
        assert_eq!(r.true_pos + r.false_pos + r.false_neg + r.true_neg, 0);
    }
}

#[test]
fn histogram_shares_sum_to_one() {
    let bytes = b"hello histogram";
    let h = to_byte_histogram(bytes);
    assert_eq!(h.len(), 256);
    let sum: u64 = h.iter().map(|r| r.num).sum();
    assert_eq!(sum, bytes.len() as u64);
    assert!(h.iter().all(|r| r.den == bytes.len() as u64));
    assert_eq!(h[b'l' as usize].num, 2);
    assert_eq!(h[b'o' as usize].num, 2);
    let as_float: f64 = h.iter().map(|r| r.num as f64 / r.den as f64).sum();
    assert!((as_float - 1.0).abs() < 1e-9);
}

#[test]
fn single_byte_value_has_one_full_bin() {
    let h = to_byte_histogram(&[7u8; 40]);
    assert_eq!(h[7], Ratio { num: 40, den: 40 });
    assert!(h.iter().enumerate().all(|(i, r)| i == 7 || r.num == 0));
    let entropy: f64 = h
        .iter()
        .filter(|r| r.num > 0)
        .map(|r| {
            let p = r.num as f64 / r.den as f64;
            -p * p.log2()
        })
        .sum();
    assert_eq!(entropy, 0.0);
}

#[test]
fn uniform_bytes_spread_evenly() {
    let bytes: Vec<u8> = (0..=255u8).chain(0..=255u8).collect();
    let h = to_byte_histogram(&bytes);
    assert!(h.iter().all(|r| *r == Ratio { num: 2, den: 512 }));
    let entropy: f64 = h
        .iter()
        .map(|r| {
            let p = r.num as f64 / r.den as f64;
            -p * p.log2()
        })
        .sum();
    assert!((entropy - 8.0).abs() < 1e-9);
}

#[test]
fn empty_buffer_has_undefined_shares() {
    let h = to_byte_histogram(&[]);
    assert!(h.iter().all(|r| *r == Ratio { num: 0, den: 0 }));
}

#[test]
fn hash_trick_is_deterministic() {
    let a = hash_trick("cat,dog,cat,bird", 17, false, ",");
    let b = hash_trick("cat,dog,cat,bird", 17, false, ",");
    assert_eq!(a, b);
    let v = a.unwrap();
    assert_eq!(v.iter().sum::<u64>(), 4);
}

#[test]
fn hash_trick_drops_one_bucket() {
    let v = hash_trick("a,b,c", 10, false, ",").unwrap();
    assert_eq!(v.len(), 9);
}

#[test]
fn hash_trick_uses_murmur3() {
    // murmur3_32("Hello, world!", 0) == 0xc0363e43 == 3224780355
    let v = hash_trick("Hello, world!", 1001, false, ";").unwrap();
    assert_eq!(v.len(), 1000);
    assert_eq!(v[355], 1);
    assert_eq!(v.iter().sum::<u64>(), 1);
    // the empty token hashes to zero
    let v = hash_trick("", 5, false, ",").unwrap();
    assert_eq!(v, vec![1, 0, 0, 0]);
}

#[test]
fn hash_trick_with_empty_delimiter_hashes_each_character() {
    // tokens "", "a", "a", "": the empty ones hash to zero
    let v = hash_trick("aa", 2, false, "").unwrap();
    assert_eq!(v, vec![4]);
    let whole = hash_trick("aa", 1001, false, "").unwrap();
    assert_eq!(whole[0], 2);
    assert_eq!(whole.iter().sum::<u64>(), 4);
}

#[test]
fn hash_trick_binary_marks_once() {
    let v = hash_trick("x,x,x", 4, true, ",").unwrap();
    assert_eq!(v.iter().sum::<u64>(), 1);
    assert!(v.iter().all(|c| *c <= 1));
}

#[test]
fn bucket_hashes_counts_by_remainder() {
    assert_eq!(bucket_hashes(&vec![0, 3, 6, 4], 4, false), vec![3, 1, 0]);
    assert_eq!(bucket_hashes(&vec![0, 3, 6, 4], 4, true), vec![1, 1, 0]);
}

#[test]
fn quintiles_at_the_boundary() {
    let q = quintiles(5, 5).unwrap();
    assert_eq!(
        q,
        vec![
            QuintilePoint { index: 1, percent: 20 },
            QuintilePoint { index: 2, percent: 40 },
            QuintilePoint { index: 3, percent: 60 },
            QuintilePoint { index: 4, percent: 80 },
        ]
    );
    assert!(quintiles(4, 5).is_none());
    assert!(quintiles(0, 1).is_none());
}

#[test]
fn quintiles_truncate_percentiles() {
    let q = quintiles(7, 3).unwrap();
    assert_eq!(q, vec![QuintilePoint { index: 2, percent: 28 }, QuintilePoint { index: 4, percent: 57 }]);
}

#[test]
fn mode_breaks_ties_toward_smaller_bucket() {
    assert_eq!(mode_bucket(&vec![5, 3, 5, 3, 9]), 3);
    assert_eq!(mode_bucket(&vec![4, 4, 1]), 4);
    assert_eq!(mode_bucket(&vec![8]), 8);
}

#[test]
fn histogram_of_buckets_is_sorted_with_counts() {
    assert_eq!(bucket_histogram(&vec![5, 3, 5, 3, 9, 5]), vec![(3, 2), (5, 3), (9, 1)]);
    assert!(bucket_histogram(&vec![]).is_empty());
}

#[test]
fn columns_transpose_rows() {
    let rows = vec![vec![45.0, 38.0, 10.0], vec![37.0, 31.0, 15.0]];
    let cols = columns(&rows, 3);
    assert_eq!(cols, vec![vec![45.0, 37.0], vec![38.0, 31.0], vec![10.0, 15.0]]);
}

#[test]
fn sampling_with_replacement_draws_one_extra() {
    let v = sample_indices(10, 3, true).unwrap();
    assert_eq!(v.len(), 4);
    assert!(v.iter().all(|i| *i < 10));
    assert_eq!(sample_indices(10, 0, true), Err(SampleError::InvalidReplacementSize));
    assert_eq!(sample_indices(0, 2, true), Err(SampleError::NoLines));
}

#[test]
fn sampling_without_replacement_is_distinct() {
    let mut v = sample_indices(6, 6, false).unwrap();
    v.sort();
    assert_eq!(v, vec![0, 1, 2, 3, 4, 5]);
    assert_eq!(sample_indices(6, 2, false).unwrap().len(), 2);
    assert_eq!(sample_indices(6, 7, false), Err(SampleError::InvalidSize));
    assert_eq!(sample_indices(6, 0, false), Err(SampleError::InvalidSize));
}

#[test]
fn split_node_reads_name_gain_and_cover() {
    let node = parse_node(b"0:[f2<1.5] yes=1,no=2,missing=1,gain=3.25,cover=40", &parse_f32).unwrap();
    assert_eq!(node.name, b"f2".to_vec());
    assert_eq!(node.gain, Some(3.25));
    assert_eq!(node.cover, Some(40.0));
    let node = parse_node(b"3:[size<7] yes=1,no=2", &parse_f32).unwrap();
    assert_eq!(node.gain, None);
    assert_eq!(node.cover, None);
    assert!(parse_node(b"0:[f0<1] yes=1,gain=abc", &parse_f32).is_err());
}

#[test]
fn dump_keeps_split_lines_only() {
    let dump = "booster[0]:\n0:[f0<0.5] yes=1,no=2,missing=1,gain=10.5,cover=20\n\t1:leaf=0.3,cover=10\n\t2:[f1<2] yes=3,no=4,missing=3,gain=2,cover=10\n";
    let nodes = dump_nodes(dump, parse_f32).unwrap();
    assert_eq!(nodes.len(), 2);
    assert_eq!(nodes[0].name, b"f0".to_vec());
    assert_eq!(nodes[1].name, b"f1".to_vec());
    assert_eq!(nodes[1].gain, Some(2.0));
    assert!(dump_nodes("0:[f0<1] gain=x,cover=1\n", parse_f32).is_err());
}

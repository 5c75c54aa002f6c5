use bedfragment_ds::qc::qc_filter;

// Three files with depths {100, 105, 10} at k = 1.5: the cutoff
// max(0, mean - 1.5 * stddev) lies below 10, so every file passes and the
// target depth is the minimum, 10.
#[test]
fn scenario_all_pass_low_cutoff() {
    let depths: Vec<u64> = vec![100, 105, 10];
    let r = qc_filter(&depths, 3, 2).unwrap();
    assert_eq!(r.included, vec![0, 1, 2]);
    assert!(r.excluded.is_empty());
    assert_eq!(r.target, 10);
}

// Depths {100, 100, 1} at k = 1.5: mean 67, stddev about 46.67, so the raw
// threshold is negative and the cutoff clamps to 0: all pass, target 1.
#[test]
fn scenario_cutoff_clamped_to_zero() {
    let depths: Vec<u64> = vec![100, 100, 1];
    let r = qc_filter(&depths, 3, 2).unwrap();
    assert_eq!(r.included, vec![0, 1, 2]);
    assert!(r.excluded.is_empty());
    assert_eq!(r.target, 1);
}

// An empty input list leaves nothing to include: the run must fail before
// any file task exists.
#[test]
fn scenario_empty_input_fails() {
    let depths: Vec<u64> = Vec::new();
    assert!(qc_filter(&depths, 3, 2).is_none());
}

// Depths {10, 10, 10, 1} at k = 0.1: mean 7.75, stddev about 3.90, cutoff
// about 7.36: the depth-1 file is excluded, the rest pass with target 10.
#[test]
fn scenario_outlier_excluded() {
    let depths: Vec<u64> = vec![10, 10, 10, 1];
    let r = qc_filter(&depths, 1, 10).unwrap();
    assert_eq!(r.included, vec![0, 1, 2]);
    assert_eq!(r.excluded, vec![3]);
    assert_eq!(r.target, 10);
}

// The same sigma threshold written with another denominator partitions the
// same way: only the ratio k_num / k_den matters.
#[test]
fn equivalent_threshold_fractions_agree() {
    let depths: Vec<u64> = vec![100, 105, 10];
    let a = qc_filter(&depths, 3, 2).unwrap();
    let b = qc_filter(&depths, 1500, 1000).unwrap();
    assert_eq!(a.included, b.included);
    assert_eq!(a.excluded, b.excluded);
    assert_eq!(a.target, b.target);
}

// A single file is always included, whatever the threshold, and sets the
// target itself.
#[test]
fn single_file_always_included() {
    let depths: Vec<u64> = vec![7];
    let r = qc_filter(&depths, 100000, 1).unwrap();
    assert_eq!(r.included, vec![0]);
    assert!(r.excluded.is_empty());
    assert_eq!(r.target, 7);
}

// k = 0 keeps exactly the files at or above the mean.
#[test]
fn zero_sigma_keeps_at_least_mean() {
    let depths: Vec<u64> = vec![10, 20, 30];
    let r = qc_filter(&depths, 0, 1).unwrap();
    assert_eq!(r.included, vec![1, 2]);
    assert_eq!(r.excluded, vec![0]);
    assert_eq!(r.target, 20);
}

// Equal depths have zero variance; everyone sits on the mean and passes.
#[test]
fn equal_depths_all_pass() {
    let depths: Vec<u64> = vec![5, 5, 5, 5];
    let r = qc_filter(&depths, 3, 2).unwrap();
    assert_eq!(r.included, vec![0, 1, 2, 3]);
    assert!(r.excluded.is_empty());
    assert_eq!(r.target, 5);
}

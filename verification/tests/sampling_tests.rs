use bedfragment_ds::depth::count_fragments;
use bedfragment_ds::sample::{reservoir_sample, sample_file};

fn lines(v: &[&str]) -> Vec<String> {
    v.iter().map(|s| s.to_string()).collect()
}

// With at least `target` data lines the reservoir holds exactly `target`.
#[test]
fn sample_exact_size_when_enough_lines() {
    let data = lines(&["a", "b", "c", "d", "e", "f", "g", "h"]);
    for _ in 0..20 {
        let s = reservoir_sample(&data, 3);
        assert_eq!(s.len(), 3);
        for rec in &s {
            assert!(data.contains(rec));
        }
    }
}

// With fewer data lines than the target the whole input comes back, in
// order, with no padding.
#[test]
fn sample_short_file_returned_whole() {
    let data = lines(&["a", "b", "c"]);
    let s = reservoir_sample(&data, 10);
    assert_eq!(s, data);
    let s2 = reservoir_sample(&data, 3);
    assert_eq!(s2, data);
}

#[test]
fn sample_of_empty_input_is_empty() {
    let data: Vec<String> = Vec::new();
    assert!(reservoir_sample(&data, 5).is_empty());
}

#[test]
fn sample_target_zero_is_empty() {
    let data = lines(&["a", "b"]);
    assert!(reservoir_sample(&data, 0).is_empty());
}

// Over many trials each line should appear with frequency close to
// target / m; the tolerance is wide enough to make a false alarm
// practically impossible.
#[test]
fn sample_roughly_uniform() {
    let data = lines(&["l0", "l1", "l2", "l3", "l4"]);
    let trials = 3000;
    let mut counts = [0usize; 5];
    for _ in 0..trials {
        let s = reservoir_sample(&data, 2);
        for rec in &s {
            let idx = data.iter().position(|d| d == rec).unwrap();
            counts[idx] += 1;
        }
    }
    // expected 3000 * 2/5 = 1200 per line
    for &c in &counts {
        assert!(c > 800 && c < 1600, "count {} far from expectation", c);
    }
}

// The first line is the header: kept aside verbatim, never sampled.
#[test]
fn sample_file_splits_header() {
    let all = lines(&["track name=x", "chr1\t1\t2", "chr2\t3\t4"]);
    let (header, sample) = sample_file(&all, 10);
    assert_eq!(header, "track name=x");
    assert_eq!(sample, lines(&["chr1\t1\t2", "chr2\t3\t4"]));
}

#[test]
fn sample_file_empty() {
    let all: Vec<String> = Vec::new();
    let (header, sample) = sample_file(&all, 4);
    assert_eq!(header, "");
    assert!(sample.is_empty());
}

#[test]
fn sample_file_counts_toward_target() {
    let mut all = vec!["header".to_string()];
    for i in 0..50 {
        all.push(format!("chr1\t{}\t{}", i, i + 1));
    }
    let (_, sample) = sample_file(&all, 10);
    assert_eq!(sample.len(), 10);
}

// Depth counting skips the header unconditionally and ignores blank lines.
#[test]
fn depth_skips_header_and_blanks() {
    let all = lines(&["header line", "chr1\t1\t2", "", "  ", "chr2\t3\t4"]);
    assert_eq!(count_fragments(&all), 2);
}

// The header counts as a header even when it looks like data.
#[test]
fn depth_first_line_never_counted() {
    let all = lines(&["chr1\t1\t2", "chr1\t5\t6"]);
    assert_eq!(count_fragments(&all), 1);
}

#[test]
fn depth_of_empty_file_is_zero() {
    let all: Vec<String> = Vec::new();
    assert_eq!(count_fragments(&all), 0);
    let only_header = lines(&["header"]);
    assert_eq!(count_fragments(&only_header), 0);
}

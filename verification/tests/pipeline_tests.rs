use bedfragment_ds::pipeline::{
    advance, artifact_name, meets_target, stage_is_terminal, subsample_permille, Stage,
};
use bedfragment_ds::text::parse_count;

// A task whose every stage succeeds walks the whole chain and completes.
#[test]
fn all_stages_succeed_completes() {
    let mut s = Stage::Queued;
    let mut steps = 0;
    while !stage_is_terminal(s) {
        s = advance(s, true);
        steps += 1;
        assert!(steps <= 8, "task did not terminate");
    }
    assert_eq!(s, Stage::Completed);
}

// A failure at any working stage diverts to cleanup and ends in Failed;
// cleanup still runs exactly once.
#[test]
fn failure_runs_cleanup_then_fails() {
    let s = advance(Stage::CoverageCompute, false);
    assert_eq!(s, Stage::Cleanup { failed: true });
    // a cleanup error is ignored: the outcome is the same either way
    assert_eq!(advance(s, false), Stage::Failed);
    assert_eq!(advance(s, true), Stage::Failed);
}

#[test]
fn failure_at_each_stage_never_completes() {
    let working = [
        Stage::Sampling,
        Stage::LocalWrite,
        Stage::NormalizeOrder,
        Stage::CoverageCompute,
        Stage::TrackEncode,
    ];
    for &w in &working {
        let mut s = advance(w, false);
        while !stage_is_terminal(s) {
            s = advance(s, true);
        }
        assert_eq!(s, Stage::Failed);
    }
}

#[test]
fn terminal_stages_are_fixed() {
    assert_eq!(advance(Stage::Completed, false), Stage::Completed);
    assert_eq!(advance(Stage::Failed, true), Stage::Failed);
}

// The alignment-path retention fraction: min(1.0, target/depth) in
// thousandths, truncated.
#[test]
fn permille_values() {
    assert_eq!(subsample_permille(10, 40), 250);
    assert_eq!(subsample_permille(1, 3), 333);
    assert_eq!(subsample_permille(10, 10), 1000);
    assert_eq!(subsample_permille(10, 3), 1000);
    assert_eq!(subsample_permille(0, 0), 1000);
    assert_eq!(subsample_permille(0, 5), 0);
}

#[test]
fn meets_target_is_at_least() {
    assert!(meets_target(10, 10));
    assert!(meets_target(11, 10));
    assert!(!meets_target(9, 10));
}

// Artifact names are the input's own name plus a fixed suffix.
#[test]
fn artifact_names_are_deterministic() {
    assert_eq!(artifact_name("sample", "_downsampled.bed"), "sample_downsampled.bed");
    assert_eq!(
        artifact_name("sample_downsampled", "_sorted.bed"),
        "sample_downsampled_sorted.bed"
    );
    assert_eq!(artifact_name("sample.bed", "_50bp.bw"), "sample.bed_50bp.bw");
}

// The delegated counter's output parses as a trimmed unsigned integer, with
// 0 for anything else.
#[test]
fn count_output_parsing() {
    assert_eq!(parse_count("12345\n"), 12345);
    assert_eq!(parse_count("  42  "), 42);
    assert_eq!(parse_count(""), 0);
    assert_eq!(parse_count("   "), 0);
    assert_eq!(parse_count("12 34"), 0);
    assert_eq!(parse_count("abc"), 0);
    assert_eq!(parse_count("18446744073709551615"), u64::MAX);
    assert_eq!(parse_count("18446744073709551616"), 0);
}

//! The per-file task pipeline: the stage machine every included file runs
//! through, the downsampling fraction of the alignment path, and the
//! deterministic artifact naming rule.

use vstd::prelude::*;
use vstd::string::StringExecFns;

verus! {

/// The stages of one file task. Local stages (sampling, ordering, writing)
/// and delegated stages (normalize-order, coverage, track encoding) advance
/// on success; any failure diverts to cleanup and then to `Failed`. Cleanup
/// is best-effort and always runs before a task becomes terminal.
#[derive(PartialEq, Eq, Structural, Clone, Copy, Debug)]
pub enum Stage {
    Queued,
    Sampling,
    LocalWrite,
    NormalizeOrder,
    CoverageCompute,
    TrackEncode,
    Cleanup { failed: bool },
    Completed,
    Failed,
}

/// A task in a terminal stage never moves again.
pub open spec fn is_terminal(s: Stage) -> bool {
    s is Completed || s is Failed
}

/// The transition rule of the task machine: `ok` is the outcome of the work
/// of the current stage. Queued tasks start unconditionally; cleanup ignores
/// its outcome (removal errors are not failures) and lands on the terminal
/// stage that the earlier stages earned.
pub open spec fn next_stage(s: Stage, ok: bool) -> Stage {
    match s {
        Stage::Queued => Stage::Sampling,
        Stage::Sampling => if ok {
            Stage::LocalWrite
        } else {
            Stage::Cleanup { failed: true }
        },
        Stage::LocalWrite => if ok {
            Stage::NormalizeOrder
        } else {
            Stage::Cleanup { failed: true }
        },
        Stage::NormalizeOrder => if ok {
            Stage::CoverageCompute
        } else {
            Stage::Cleanup { failed: true }
        },
        Stage::CoverageCompute => if ok {
            Stage::TrackEncode
        } else {
            Stage::Cleanup { failed: true }
        },
        Stage::TrackEncode => if ok {
            Stage::Cleanup { failed: false }
        } else {
            Stage::Cleanup { failed: true }
        },
        Stage::Cleanup { failed } => if failed {
            Stage::Failed
        } else {
            Stage::Completed
        },
        Stage::Completed => Stage::Completed,
        Stage::Failed => Stage::Failed,
    }
}

/// Exec mirror of [`next_stage`]: one step of a file task.
pub fn advance(s: Stage, ok: bool) -> (t: Stage)
    ensures
        t == next_stage(s, ok),
{
    match s {
        Stage::Queued => Stage::Sampling,
        Stage::Sampling => if ok {
            Stage::LocalWrite
        } else {
            Stage::Cleanup { failed: true }
        },
        Stage::LocalWrite => if ok {
            Stage::NormalizeOrder
        } else {
            Stage::Cleanup { failed: true }
        },
        Stage::NormalizeOrder => if ok {
            Stage::CoverageCompute
        } else {
            Stage::Cleanup { failed: true }
        },
        Stage::CoverageCompute => if ok {
            Stage::TrackEncode
        } else {
            Stage::Cleanup { failed: true }
        },
        Stage::TrackEncode => if ok {
            Stage::Cleanup { failed: false }
        } else {
            Stage::Cleanup { failed: true }
        },
        Stage::Cleanup { failed } => if failed {
            Stage::Failed
        } else {
            Stage::Completed
        },
        Stage::Completed => Stage::Completed,
        Stage::Failed => Stage::Failed,
    }
}

/// Exec mirror of [`is_terminal`].
pub fn stage_is_terminal(s: Stage) -> (r: bool)
    ensures
        r == is_terminal(s),
{
    match s {
        Stage::Completed => true,
        Stage::Failed => true,
        _ => false,
    }
}

/// An upper bound on the steps a task still takes; strictly decreasing until
/// a terminal stage, so every task reaches a terminal stage.
pub open spec fn steps_left(s: Stage) -> nat {
    match s {
        Stage::Queued => 8,
        Stage::Sampling => 7,
        Stage::LocalWrite => 6,
        Stage::NormalizeOrder => 5,
        Stage::CoverageCompute => 4,
        Stage::TrackEncode => 3,
        Stage::Cleanup { failed: _ } => 1,
        Stage::Completed => 0,
        Stage::Failed => 0,
    }
}

/// Every task, once started, runs to a terminal stage: each step lowers the
/// measure, and terminal stages are fixed points.
pub proof fn lemma_pipeline_terminates(s: Stage, ok: bool)
    ensures
        !is_terminal(s) ==> steps_left(next_stage(s, ok)) < steps_left(s),
        is_terminal(s) ==> next_stage(s, ok) == s,
{
}

/// `Completed` is reached only through a cleanup after the track-encoding
/// stage succeeded, and a failure at any working stage diverts straight to a
/// failure-bound cleanup: no failed task ever completes.
pub proof fn lemma_completed_needs_success(s: Stage, ok: bool)
    ensures
        next_stage(s, ok) == Stage::Completed ==> s == Stage::Completed || s == (Stage::Cleanup {
            failed: false,
        }),
        next_stage(s, ok) == (Stage::Cleanup { failed: false }) ==> s == Stage::TrackEncode && ok,
        !ok && !is_terminal(s) && !(s is Cleanup) && !(s is Queued) ==> next_stage(s, ok)
            == (Stage::Cleanup { failed: true }),
{
}

/// The retention fraction handed to the alignment-path subsampler, in
/// thousandths: `min(1.0, target / depth)` truncated to three decimals. A
/// depth at or below the target (a zero depth included, where the float
/// quotient is not finite and the cap takes over) yields the full fraction.
pub open spec fn permille_of(target: int, depth: int) -> int {
    if depth <= target {
        1000
    } else {
        1000 * target / depth
    }
}

/// Exec mirror of [`permille_of`]; the result never exceeds 1000.
pub fn subsample_permille(target: u64, depth: u64) -> (r: u64)
    ensures
        r as int == permille_of(target as int, depth as int),
        r <= 1000,
{
    if depth <= target {
        1000
    } else {
        let w: u128 = (1000u128 * (target as u128)) / (depth as u128);
        proof {
            assert((1000 * (target as int)) / (depth as int) < 1000) by (nonlinear_arith)
                requires
                    0 <= target < depth,
            ;
            assert((1000 * (target as int)) / (depth as int) >= 0) by (nonlinear_arith)
                requires
                    0 <= target < depth,
            ;
        }
        w as u64
    }
}

/// Whether a file still reaches the target depth when its task runs; on the
/// alignment path a file below the target is skipped.
pub fn meets_target(depth: u64, target: u64) -> (r: bool)
    ensures
        r == (depth >= target),
{
    depth >= target
}

/// The deterministic artifact naming rule: every intermediate and final
/// artifact of a file is the file's own name plus a fixed suffix, so
/// concurrent tasks never collide.
pub fn artifact_name(base: &str, suffix: &str) -> (r: String)
    ensures
        r@ == base@ + suffix@,
{
    String::from_str(base).concat(suffix)
}

} // verus!

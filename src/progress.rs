//! Progress reporting and throttling for long-running batches.

use vstd::prelude::*;

verus! {

/// After how many units a batch pauses briefly.
pub const PAUSE_EVERY: usize = 10;

/// A batch pauses after every tenth unit (counting from one).
pub fn should_pause(index: usize) -> (r: bool)
    ensures
        r == ((index as int + 1) % 10 == 0),
{
    index % PAUSE_EVERY == PAUSE_EVERY - 1
}

/// Which moment of a batch an event reports.
#[derive(Debug, Clone, Copy, PartialEq, Eq, Structural)]
pub enum ProgressKind {
    Started,
    Progress,
    Completed,
}

/// A progress notification for subscribers.
#[derive(Debug, Clone, Copy, PartialEq, Eq, Structural)]
pub struct ProgressEvent {
    pub kind: ProgressKind,
    pub total: u64,
    pub processed: u64,
    pub failed: u64,
    pub progress_percent: u64,
    pub eta_seconds: u64,
}

/// Whole percentage of `total` that `done` units make, capped at 100; 0 for
/// an empty batch.
pub open spec fn percent_done(done: int, total: int) -> int {
    if total == 0 {
        0
    } else if done * 100 / total > 100 {
        100
    } else {
        done * 100 / total
    }
}

/// Estimated seconds left: the mean time per finished unit so far times
/// the units left, capped at the largest `u64`; 0 before any unit has
/// finished.
pub open spec fn eta_of(elapsed: int, done: int, total: int) -> int {
    if done == 0 || done >= total {
        0
    } else if (elapsed / done) * (total - done) > u64::MAX as int {
        u64::MAX as int
    } else {
        (elapsed / done) * (total - done)
    }
}

/// The event for a batch of `total` units of which `processed` succeeded
/// and `failed` failed, `elapsed_secs` into the run. Completed events
/// report 100% and no time left.
pub fn progress_event(kind: ProgressKind, total: u64, processed: u64, failed: u64, elapsed_secs: u64) -> (r: ProgressEvent)
    requires
        processed as int + failed as int <= total as int,
    ensures
        r.kind == kind,
        r.total == total,
        r.processed == processed,
        r.failed == failed,
        kind == ProgressKind::Completed ==> r.progress_percent == 100 && r.eta_seconds == 0,
        kind != ProgressKind::Completed ==> r.progress_percent as int == percent_done(
            processed + failed,
            total as int,
        ),
        kind != ProgressKind::Completed ==> r.eta_seconds as int == eta_of(
            elapsed_secs as int,
            processed + failed,
            total as int,
        ),
{
    let done = processed + failed;
    if kind == ProgressKind::Completed {
        return ProgressEvent { kind, total, processed, failed, progress_percent: 100, eta_seconds: 0 };
    }
    let percent: u64 = if total == 0 {
        0
    } else {
        let p = (done as u128) * 100 / (total as u128);
        if p > 100 {
            100
        } else {
            p as u64
        }
    };
    let eta: u64 = if done == 0 || done >= total {
        0
    } else {
        let per = elapsed_secs / done;
        let left = total - done;
        assert(per * left <= elapsed_secs * left) by (nonlinear_arith)
            requires
                per <= elapsed_secs,
        ;
        assert(per as int * left as int <= u64::MAX as int * u64::MAX as int) by (nonlinear_arith)
            requires
                per <= u64::MAX,
                left <= u64::MAX,
                per >= 0,
                left >= 0,
        ;
        let e = (per as u128) * (left as u128);
        if e > u64::MAX as u128 {
            u64::MAX
        } else {
            e as u64
        }
    };
    ProgressEvent { kind, total, processed, failed, progress_percent: percent, eta_seconds: eta }
}

} // verus!

//! Stages of a comparison run and the progress events between them.

use vstd::prelude::*;

verus! {

/// Stage of a run.
#[derive(Debug, Clone, Copy, PartialEq, Eq, Structural)]
pub enum RunStage {
    New,
    Indexing,
    Fingerprinting,
    Matching,
    Comparing,
    Summarising,
    Done,
    /// Setting up the run directory failed; nothing else happens.
    Failed,
}

/// What the runner reports back after doing a stage's work.
#[derive(Debug, Clone, Copy, PartialEq, Eq, Structural)]
pub enum RunEvent {
    /// The current stage finished; the next one has `next_total` items
    /// (0 when unknown).
    StageDone { next_total: u64 },
    /// The run directory could not be created.
    SetupFailed,
}

/// What the runner tells the progress bus.
#[derive(Debug, Clone, Copy, PartialEq, Eq, Structural)]
pub enum ProgressAction {
    /// Finish `finished` (unless the run was new) and start `started`.
    Advance { finished: RunStage, started: RunStage, total: u64 },
    /// Finish the last stage.
    Complete { finished: RunStage },
    /// Nothing to report.
    Nothing,
}

/// The stage after `s` in a successful run.
pub open spec fn spec_following(s: RunStage) -> RunStage {
    match s {
        RunStage::New => RunStage::Indexing,
        RunStage::Indexing => RunStage::Fingerprinting,
        RunStage::Fingerprinting => RunStage::Matching,
        RunStage::Matching => RunStage::Comparing,
        RunStage::Comparing => RunStage::Summarising,
        RunStage::Summarising => RunStage::Done,
        RunStage::Done => RunStage::Done,
        RunStage::Failed => RunStage::Failed,
    }
}

/// One step of a run: a finished stage leads to the next one, with a
/// progress start carrying the next stage's item count; only a new run can
/// fail, and `Done` and `Failed` are final.
pub open spec fn spec_step(s: RunStage, e: RunEvent) -> (RunStage, ProgressAction) {
    match (s, e) {
        (RunStage::Done, _) | (RunStage::Failed, _) => (s, ProgressAction::Nothing),
        (RunStage::New, RunEvent::SetupFailed) => (RunStage::Failed, ProgressAction::Nothing),
        (_, RunEvent::SetupFailed) => (s, ProgressAction::Nothing),
        (RunStage::Summarising, RunEvent::StageDone { .. }) => (
            RunStage::Done,
            ProgressAction::Complete { finished: RunStage::Summarising },
        ),
        (_, RunEvent::StageDone { next_total }) => (
            spec_following(s),
            ProgressAction::Advance { finished: s, started: spec_following(s), total: next_total },
        ),
    }
}

fn following(s: RunStage) -> (r: RunStage)
    ensures
        r == spec_following(s),
{
    match s {
        RunStage::New => RunStage::Indexing,
        RunStage::Indexing => RunStage::Fingerprinting,
        RunStage::Fingerprinting => RunStage::Matching,
        RunStage::Matching => RunStage::Comparing,
        RunStage::Comparing => RunStage::Summarising,
        RunStage::Summarising => RunStage::Done,
        RunStage::Done => RunStage::Done,
        RunStage::Failed => RunStage::Failed,
    }
}

/// The next stage of a run and what to report.
pub fn next_stage(s: RunStage, e: RunEvent) -> (r: (RunStage, ProgressAction))
    ensures
        r == spec_step(s, e),
{
    match (s, e) {
        (RunStage::Done, _) | (RunStage::Failed, _) => (s, ProgressAction::Nothing),
        (RunStage::New, RunEvent::SetupFailed) => (RunStage::Failed, ProgressAction::Nothing),
        (_, RunEvent::SetupFailed) => (s, ProgressAction::Nothing),
        (RunStage::Summarising, RunEvent::StageDone { .. }) => (
            RunStage::Done,
            ProgressAction::Complete { finished: RunStage::Summarising },
        ),
        (_, RunEvent::StageDone { next_total }) => {
            let n = following(s);
            (n, ProgressAction::Advance { finished: s, started: n, total: next_total })
        },
    }
}

/// Progress in percent, `current / total` capped at 100; `None` when the
/// total is unknown (zero).
pub fn progress_percent(current: u64, total: u64) -> (r: Option<u64>)
    ensures
        total == 0 ==> r is None,
        total > 0 ==> r == Some(if current as int * 100 / total as int <= 100 {
            (current as int * 100 / total as int) as u64
        } else {
            100u64
        }),
{
    if total == 0 {
        return None;
    }
    let p = (current as u128 * 100) / total as u128;
    if p <= 100 {
        Some(p as u64)
    } else {
        Some(100)
    }
}

} // verus!

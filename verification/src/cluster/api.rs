use vstd::prelude::*;

verus! {

/// How often the progress of a requested snapshot is looked at before the
/// request is given up.
pub const SNAPSHOT_POLLS: u32 = 300;

/// Milliseconds between two looks.
pub const SNAPSHOT_POLL_MILLIS: u64 = 100;

/// What to do about a request to build a snapshot.
#[derive(Debug, Clone, Copy, PartialEq, Eq, Structural)]
pub enum SnapshotPlan {
    /// The log is empty: there is nothing to snapshot, and the request has
    /// succeeded.
    NothingToDo,
    /// Trigger a snapshot and wait until it covers the given log index.
    Cover(u64),
}

/// What to do after a look at the progress of a snapshot.
#[derive(Debug, Clone, Copy, PartialEq, Eq, Structural)]
pub enum PollStep {
    /// The snapshot covers the target: purge the log up to it.
    Purge,
    /// Not yet: sleep and look again.
    Wait,
    /// Not yet, and this was the last look: the request has failed.
    TimedOut,
}

/// The plan for a node whose last log index is `last_log_index`.
pub fn plan_snapshot(last_log_index: Option<u64>) -> (plan: SnapshotPlan)
    ensures
        plan == (match last_log_index {
            Some(i) => if i == 0 {
                SnapshotPlan::NothingToDo
            } else {
                SnapshotPlan::Cover(i)
            },
            None => SnapshotPlan::NothingToDo,
        }),
{
    match last_log_index {
        Some(i) => {
            if i == 0 {
                SnapshotPlan::NothingToDo
            } else {
                SnapshotPlan::Cover(i)
            }
        },
        None => SnapshotPlan::NothingToDo,
    }
}

/// The step after look number `looks` (counted from 1) found the newest
/// snapshot at `snapshot_index`.
pub fn poll_step(target_index: u64, snapshot_index: Option<u64>, looks: u32) -> (step: PollStep)
    ensures
        step == (if snapshot_index is Some && snapshot_index->0 >= target_index {
            PollStep::Purge
        } else if looks >= SNAPSHOT_POLLS {
            PollStep::TimedOut
        } else {
            PollStep::Wait
        }),
{
    match snapshot_index {
        Some(i) => {
            if i >= target_index {
                return PollStep::Purge;
            }
        },
        None => {},
    }
    if looks >= SNAPSHOT_POLLS {
        PollStep::TimedOut
    } else {
        PollStep::Wait
    }
}

} // verus!

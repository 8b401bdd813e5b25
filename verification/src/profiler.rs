//! Profiler: plans one run per event group and folds the outcomes in.
//!
//! The library decides; the caller executes. A session hands out, for each
//! group in rank order, the plan of the next run (its group index and
//! whether counters are to be bound). The caller spawns the workload, waits
//! on it under the deadline, and reports the outcome with whatever samples
//! were read. The session records the run: samples are kept only for a
//! completed run — a timed-out or failed spawn contributes none, since a
//! partial counter window is not comparable across groups — and the sweep
//! always continues to the next group, whatever the outcome.

use vstd::prelude::*;
use crate::extract::RawSample;

verus! {

/// How one run ended.
#[derive(Clone, Copy, Debug, PartialEq, Eq, Structural)]
pub enum RunOutcome {
    /// The workload exited within its deadline.
    Completed,
    /// The deadline expired; the child was terminated and reaped.
    TimedOut,
    /// The workload could not be started at all.
    SpawnFailed,
}

/// The plan of one run, handed to the caller for execution.
pub struct RunPlan {
    pub group_index: usize,
    /// Whether hardware counters are bound for the run; when false only the
    /// wall clock is captured (the lightweight baseline mode).
    pub record: bool,
}

/// One finished run.
pub struct Run {
    pub group_index: usize,
    pub outcome: RunOutcome,
    pub wall_clock_ms: u64,
    pub samples: Vec<RawSample>,
}

/// A finished run never reports samples unless it completed.
pub open spec fn run_wf(r: Run) -> bool {
    !(r.outcome is Completed) ==> r.samples@.len() == 0
}

/// One profiling sweep of a workload over a sequence of event groups.
pub struct ProfileSession {
    /// How many groups the sweep covers.
    pub group_count: usize,
    /// Whether counters are bound during each run.
    pub record: bool,
    /// The group the next run will use.
    pub next_group: usize,
    /// The finished runs, one per group already visited, in group order.
    pub runs: Vec<Run>,
}

impl ProfileSession {
    /// The session invariant: one finished run per visited group, each
    /// well-formed and carrying its own group index.
    pub open spec fn wf(&self) -> bool {
        &&& self.next_group <= self.group_count
        &&& self.runs@.len() == self.next_group
        &&& forall|j: int|
            0 <= j < self.runs@.len() ==> run_wf(#[trigger] self.runs@[j]) && self.runs@[j].group_index
                == j
    }

    /// Opens a sweep over `group_count` groups.
    pub fn begin(group_count: usize, record: bool) -> (s: Self)
        ensures
            s.wf(),
            s.group_count == group_count,
            s.record == record,
            s.next_group == 0,
            s.runs@.len() == 0,
    {
        ProfileSession { group_count, record, next_group: 0, runs: Vec::new() }
    }

    /// The plan of the next run, or `None` when every group has run.
    pub fn next_plan(&self) -> (r: Option<RunPlan>)
        requires
            self.wf(),
        ensures
            r is Some <==> self.next_group < self.group_count,
            r matches Some(p) ==> p.group_index == self.next_group && p.record == self.record,
    {
        if self.next_group < self.group_count {
            Some(RunPlan { group_index: self.next_group, record: self.record })
        } else {
            None
        }
    }

    /// Records the outcome the caller reports for the planned run and moves
    /// to the next group. Samples are kept only for a completed run; a
    /// timed-out or failed run contributes none. The sweep advances whatever
    /// the outcome: one run's failure never halts the remaining groups.
    pub fn record_outcome(
        &mut self,
        outcome: RunOutcome,
        samples: Vec<RawSample>,
        wall_clock_ms: u64,
    )
        requires
            old(self).wf(),
            old(self).next_group < old(self).group_count,
        ensures
            final(self).wf(),
            final(self).group_count == old(self).group_count,
            final(self).record == old(self).record,
            final(self).next_group == old(self).next_group + 1,
            final(self).runs@.len() == old(self).runs@.len() + 1,
            final(self).runs@.drop_last() == old(self).runs@,
            ({
                let run = final(self).runs@.last();
                &&& run.group_index == old(self).next_group
                &&& run.outcome == outcome
                &&& run.wall_clock_ms == wall_clock_ms
                &&& (outcome is Completed ==> run.samples@ == samples@)
                &&& (!(outcome is Completed) ==> run.samples@.len() == 0)
            }),
    {
        let kept: Vec<RawSample> = match outcome {
            RunOutcome::Completed => samples,
            _ => Vec::new(),
        };
        let run = Run { group_index: self.next_group, outcome, wall_clock_ms, samples: kept };
        self.runs.push(run);
        self.next_group = self.next_group + 1;
        proof {
            assert(self.runs@.drop_last() =~= old(self).runs@);
        }
    }

    /// Whether the sweep has visited every group.
    pub fn done(&self) -> (r: bool)
        requires
            self.wf(),
        ensures
            r == (self.next_group == self.group_count),
            r ==> self.runs@.len() == self.group_count,
    {
        self.next_group == self.group_count
    }
}

} // verus!

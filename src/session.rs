//! The steps that split one file, as a state machine: the caller performs
//! each action that the session asks for and reports back how it went.
use vstd::prelude::*;
use crate::duration::{Duration, ProbeError};
use crate::plan::{
    SEGMENT_SECONDS, decimal, decimal_string, segment_count, segment_file_name, segment_name,
    segments_of, start_of,
};

verus! {

/// Where a session stands.
#[derive(Clone, Copy, Debug, PartialEq, Eq, Structural)]
pub enum Phase {
    /// The output directory is to be created.
    CreatingDir,
    /// The duration is to be probed.
    Probing,
    /// Segments are being split, one after another.
    Splitting,
    /// Nothing more to do for this file.
    Done,
}

/// How one run of the splitting tool went.
#[derive(Clone, Copy, Debug, PartialEq, Eq, Structural)]
pub enum SplitOutcome {
    /// The tool exited with success.
    Succeeded,
    /// The tool ran and exited with a failure status.
    ExitFailed,
    /// The tool could not be started.
    LaunchFailed,
}

/// One run of the splitting tool: copy the streams of the source file from
/// `seek` seconds on, for at most `SEGMENT_SECONDS`, into `output_name` in the
/// output directory.
#[derive(Clone, Debug, PartialEq, Eq)]
pub struct SplitCommand {
    pub index: u64,
    pub seek: String,
    pub output_name: String,
}

/// What the caller is to do next.
#[derive(Clone, Debug, PartialEq, Eq)]
pub enum Action {
    CreateOutputDir,
    Probe,
    Split(SplitCommand),
    Finished,
}

/// The progress of splitting one source file whose name without extension
/// is `stem`.
#[derive(Clone, Debug)]
pub struct SplitSession {
    pub stem: String,
    pub phase: Phase,
    /// How many segments the file has; known once the duration is.
    pub total: u64,
    /// The index of the next segment to split; all before it were tried.
    pub next: u64,
    pub succeeded: u64,
    pub failed: u64,
}

/// The session after the split of its next segment, whatever the outcome.
pub open spec fn split_step(s: SplitSession, outcome: SplitOutcome) -> SplitSession {
    let next = (s.next + 1) as u64;
    SplitSession {
        next,
        succeeded: if outcome == SplitOutcome::Succeeded {
            (s.succeeded + 1) as u64
        } else {
            s.succeeded
        },
        failed: if outcome == SplitOutcome::Succeeded {
            s.failed
        } else {
            (s.failed + 1) as u64
        },
        phase: if next < s.total {
            Phase::Splitting
        } else {
            Phase::Done
        },
        ..s
    }
}

/// The session after one split for each of `outcomes`, in order.
pub open spec fn run_splits(s: SplitSession, outcomes: Seq<SplitOutcome>) -> SplitSession
    decreases outcomes.len(),
{
    if outcomes.len() == 0 {
        s
    } else {
        run_splits(split_step(s, outcomes[0]), outcomes.drop_first())
    }
}

/// The session after its probe: a failure ends it with no segment; a
/// duration gives its segments, to be split from index 0 on.
pub open spec fn probe_step(s: SplitSession, probed: Result<Duration, ProbeError>) -> SplitSession {
    match probed {
        Ok(d) => SplitSession {
            total: segments_of(d) as u64,
            phase: if segments_of(d) > 0 {
                Phase::Splitting
            } else {
                Phase::Done
            },
            ..s
        },
        Err(_) => SplitSession { phase: Phase::Done, ..s },
    }
}

impl SplitSession {
    pub open spec fn wf(&self) -> bool {
        &&& self.next <= self.total <= u64::MAX / SEGMENT_SECONDS + 1
        &&& self.succeeded + self.failed == self.next
        &&& (self.phase == Phase::Splitting ==> self.next < self.total)
        &&& (self.phase == Phase::CreatingDir || self.phase == Phase::Probing) ==> self.total == 0
    }

    /// A session for a file, starting at the creation of the output directory.
    pub fn new(stem: String) -> (r: SplitSession)
        ensures
            r.wf(),
            r.stem == stem,
            r.phase == Phase::CreatingDir,
            r.total == 0,
            r.next == 0,
    {
        SplitSession {
            stem,
            phase: Phase::CreatingDir,
            total: 0,
            next: 0,
            succeeded: 0,
            failed: 0,
        }
    }

    /// What is to be done now. While splitting, it is the next segment in
    /// order, starting `start_of(next)` seconds in.
    pub fn next_action(&self) -> (r: Action)
        requires
            self.wf(),
        ensures
            self.phase == Phase::CreatingDir ==> r == Action::CreateOutputDir,
            self.phase == Phase::Probing ==> r == Action::Probe,
            self.phase == Phase::Done ==> r == Action::Finished,
            self.phase == Phase::Splitting ==> (r matches Action::Split(c) && c.index == self.next
                && c.seek@ == decimal(start_of(self.next as nat)) && c.output_name@
                == segment_name(self.stem@, self.next as nat)),
    {
        match self.phase {
            Phase::CreatingDir => Action::CreateOutputDir,
            Phase::Probing => Action::Probe,
            Phase::Done => Action::Finished,
            Phase::Splitting => {
                let seek = decimal_string(self.next * SEGMENT_SECONDS);
                let output_name = segment_file_name(self.stem.as_str(), self.next);
                Action::Split(SplitCommand { index: self.next, seek, output_name })
            },
        }
    }

    /// The output directory was created (`ok`) or could not be. Without it
    /// the file is given up.
    pub fn on_output_dir(&mut self, ok: bool)
        requires
            old(self).wf(),
            old(self).phase == Phase::CreatingDir,
        ensures
            final(self).wf(),
            final(self).stem == old(self).stem,
            final(self).phase == if ok {
                Phase::Probing
            } else {
                Phase::Done
            },
            final(self).total == 0,
            final(self).next == 0,
    {
        self.phase = if ok {
            Phase::Probing
        } else {
            Phase::Done
        };
    }

    /// The duration was probed. A failed probe ends the session before any
    /// segment is split; otherwise the segments are split from index 0 on.
    pub fn on_probe(&mut self, probed: Result<Duration, ProbeError>)
        requires
            old(self).wf(),
            old(self).phase == Phase::Probing,
            probed matches Ok(d) ==> d.wf(),
        ensures
            final(self).wf(),
            *final(self) == probe_step(*old(self), probed),
    {
        match probed {
            Ok(d) => {
                let n = segment_count(&d);
                self.total = n;
                self.phase = if n > 0 {
                    Phase::Splitting
                } else {
                    Phase::Done
                };
            },
            Err(_) => {
                self.phase = Phase::Done;
            },
        }
    }

    /// The split of segment `next` has run. Whatever its outcome, the next
    /// segment in order comes next, until every segment has been tried.
    pub fn on_split(&mut self, outcome: SplitOutcome)
        requires
            old(self).wf(),
            old(self).phase == Phase::Splitting,
        ensures
            final(self).wf(),
            *final(self) == split_step(*old(self), outcome),
    {
        match outcome {
            SplitOutcome::Succeeded => {
                self.succeeded = self.succeeded + 1;
            },
            _ => {
                self.failed = self.failed + 1;
            },
        }
        self.next = self.next + 1;
        if self.next == self.total {
            self.phase = Phase::Done;
        }
    }
}

/// A failed probe ends the session: no segment is to be split, and the next
/// action is to finish with this file.
pub proof fn lemma_failed_probe_splits_nothing(s: SplitSession, e: ProbeError)
    requires
        s.wf(),
        s.phase == Phase::Probing,
    ensures
        probe_step(s, Err(e)).phase == Phase::Done,
        probe_step(s, Err(e)).total == 0,
        probe_step(s, Err(e)).next == 0,
{
}

/// Splitting goes on whatever each split's outcome: after any run of
/// outcomes, successes and failures alike, the segment index has moved on by
/// one per split, and the session keeps splitting until every segment of the
/// file has been tried.
pub proof fn lemma_every_segment_is_tried(s: SplitSession, outcomes: Seq<SplitOutcome>)
    requires
        s.wf(),
        s.phase == Phase::Splitting,
        outcomes.len() <= s.total - s.next,
    ensures
        run_splits(s, outcomes).wf(),
        run_splits(s, outcomes).total == s.total,
        run_splits(s, outcomes).next == s.next + outcomes.len(),
        run_splits(s, outcomes).phase == if s.next + outcomes.len() < s.total {
            Phase::Splitting
        } else {
            Phase::Done
        },
    decreases outcomes.len(),
{
    if outcomes.len() > 0 {
        let t = split_step(s, outcomes[0]);
        assert(t.wf());
        if outcomes.len() > 1 {
            lemma_every_segment_is_tried(t, outcomes.drop_first());
        } else {
            assert(run_splits(t, outcomes.drop_first()) == t);
        }
    }
}

} // verus!

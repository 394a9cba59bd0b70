//! One step of a probe: what a finished attempt does to the statistics,
//! what is written of it, and whether another attempt follows.
//!
//! Connecting and pausing are the caller's part. It makes an attempt,
//! hands the outcome to [`conclude_attempt`], writes the line it gets
//! back, and does what the step says next: pause and make another
//! attempt, or finish.

use vstd::prelude::*;
use crate::params::{ProgParameters, Settings};
use crate::report::{connected_line, connected_text, failed_line, failed_text};
use crate::stats::{successes, Interval, ResultCollection};

verus! {

/// How one connection attempt ended.
#[derive(Clone, Debug, PartialEq, Eq)]
pub enum AttemptOutcome {
    /// The connection was made, `micros` microseconds after the attempt
    /// began.
    Connected { micros: u64 },
    /// No connection was made within the timeout, for `reason`.
    Failed { reason: String },
}

/// What follows an attempt.
#[derive(Clone, Copy, Debug, PartialEq, Eq, Structural)]
pub enum NextStep {
    /// Pause for `secs` seconds, then make another attempt.
    Wait { secs: u64 },
    /// The probe is over.
    Finish,
}

/// What a finished attempt leads to.
#[derive(Clone, Debug, PartialEq, Eq)]
pub struct AttemptReport {
    /// The line to write for the attempt.
    pub line: String,
    /// What to do next.
    pub next: NextStep,
}

impl AttemptOutcome {
    /// The outcome of an attempt that connected after `elapsed_micros`
    /// microseconds. A time beyond what 64 bits hold, which is more than
    /// half a million years, is taken as the longest time that they hold.
    pub fn connected(elapsed_micros: u128) -> (outcome: AttemptOutcome)
        ensures
            outcome == (AttemptOutcome::Connected {
                micros: if elapsed_micros > u64::MAX {
                    u64::MAX
                } else {
                    elapsed_micros as u64
                },
            }),
    {
        if elapsed_micros > 0xffff_ffff_ffff_ffffu128 {
            AttemptOutcome::Connected { micros: u64::MAX }
        } else {
            AttemptOutcome::Connected { micros: elapsed_micros as u64 }
        }
    }

    /// The outcome of an attempt that made no connection, for `reason`.
    pub fn failed(reason: String) -> (outcome: AttemptOutcome)
        ensures
            outcome == (AttemptOutcome::Failed { reason }),
    {
        AttemptOutcome::Failed { reason }
    }

    /// The attempt as the statistics see it. A failure counts with a time
    /// of zero, which the statistics pass over.
    pub open spec fn interval(&self) -> Interval {
        match self {
            AttemptOutcome::Connected { micros } => Interval { successful: true, micros: *micros },
            AttemptOutcome::Failed { .. } => Interval { successful: false, micros: 0 },
        }
    }

    /// The line written for the attempt.
    pub open spec fn line(&self, settings: Settings) -> Seq<char> {
        match self {
            AttemptOutcome::Connected { micros } => connected_text(settings, *micros),
            AttemptOutcome::Failed { reason } => failed_text(settings, reason@),
        }
    }
}

/// What follows once `done` attempts have been recorded: the probe is
/// over when that is the number asked for, else a pause comes first.
pub open spec fn next_step(done: nat, settings: Settings) -> NextStep {
    if done == settings.interval_count {
        NextStep::Finish
    } else {
        NextStep::Wait { secs: settings.wait_interval }
    }
}

/// Takes in the outcome of one attempt: records it, words the line for
/// it, and says what follows.
pub fn conclude_attempt(
    result_col: &mut ResultCollection,
    prog_params: &ProgParameters,
    outcome: &AttemptOutcome,
) -> (report: AttemptReport)
    requires
        old(result_col)@.len() < u32::MAX,
    ensures
        final(result_col)@ == old(result_col)@.push(outcome.interval()),
        report.line@ == outcome.line(prog_params@),
        report.next == next_step(final(result_col)@.len(), prog_params@),
{
    let line = match outcome {
        AttemptOutcome::Connected { micros } => {
            result_col.add_interval(true, *micros);
            connected_line(prog_params, *micros)
        },
        AttemptOutcome::Failed { reason } => {
            result_col.add_interval(false, 0);
            failed_line(prog_params, reason.as_str())
        },
    };
    let next = if result_col.iterations() == prog_params.interval_count {
        NextStep::Finish
    } else {
        NextStep::Wait { secs: prog_params.wait_interval }
    };
    AttemptReport { line, next }
}

/// How a probe went: the attempts recorded, the pauses taken, and whether
/// it reached its end.
pub struct Course {
    pub log: Seq<Interval>,
    pub waits: nat,
    pub finished: bool,
}

/// The course of a probe that has recorded `log` and taken `waits`
/// pauses, and whose coming attempts end as `outcomes` say, in turn. It
/// goes on until a step says to finish, or the outcomes run out.
pub open spec fn course_from(
    log: Seq<Interval>,
    waits: nat,
    settings: Settings,
    outcomes: Seq<Interval>,
) -> Course
    decreases outcomes.len(),
{
    if outcomes.len() == 0 {
        Course { log, waits, finished: false }
    } else if next_step(log.len() + 1, settings) is Finish {
        Course { log: log.push(outcomes.first()), waits, finished: true }
    } else {
        course_from(log.push(outcomes.first()), waits + 1, settings, outcomes.drop_first())
    }
}

/// The course of a probe from its start.
pub open spec fn course(settings: Settings, outcomes: Seq<Interval>) -> Course {
    course_from(Seq::empty(), 0, settings, outcomes)
}

/// A probe under way makes every attempt that is left, whatever the
/// outcomes, pauses between them and not after the last.
pub proof fn lemma_course_from(
    log: Seq<Interval>,
    waits: nat,
    settings: Settings,
    outcomes: Seq<Interval>,
)
    requires
        log.len() < settings.interval_count,
        outcomes.len() >= settings.interval_count - log.len(),
    ensures
        course_from(log, waits, settings, outcomes) == (Course {
            log: log + outcomes.take(settings.interval_count - log.len()),
            waits: (waits + settings.interval_count - log.len() - 1) as nat,
            finished: true,
        }),
    decreases outcomes.len(),
{
    let left = settings.interval_count - log.len();
    let first = log.push(outcomes.first());
    if left == 1 {
        assert(first =~= log + outcomes.take(left));
    } else {
        lemma_course_from(first, waits + 1, settings, outcomes.drop_first());
        assert(first + outcomes.drop_first().take(left - 1) =~= log + outcomes.take(left));
    }
}

/// A probe of `n >= 1` attempts makes exactly `n` attempts, whatever
/// their outcomes, and pauses exactly `n - 1` times: between attempts,
/// never after the last. A probe of one attempt does not pause at all.
pub proof fn lemma_course_is_complete(settings: Settings, outcomes: Seq<Interval>)
    requires
        settings.interval_count >= 1,
        outcomes.len() >= settings.interval_count,
    ensures
        course(settings, outcomes).finished,
        course(settings, outcomes).log == outcomes.take(settings.interval_count as int),
        course(settings, outcomes).log.len() == settings.interval_count,
        course(settings, outcomes).waits == settings.interval_count - 1,
{
    lemma_course_from(Seq::empty(), 0, settings, outcomes);
    assert(Seq::<Interval>::empty() + outcomes.take(settings.interval_count as int)
        =~= outcomes.take(settings.interval_count as int));
}

/// A probe whose attempts all fail still makes every attempt, and counts
/// no success.
pub proof fn lemma_course_of_failures(settings: Settings, outcomes: Seq<Interval>)
    requires
        settings.interval_count >= 1,
        outcomes.len() >= settings.interval_count,
        forall|i: int| 0 <= i < outcomes.len() ==> !(#[trigger] outcomes[i]).successful,
    ensures
        course(settings, outcomes).log.len() == settings.interval_count,
        successes(course(settings, outcomes).log) == 0,
        course(settings, outcomes).waits == settings.interval_count - 1,
{
    lemma_course_is_complete(settings, outcomes);
    crate::stats::lemma_counts_only_successes(course(settings, outcomes).log);
}

} // verus!

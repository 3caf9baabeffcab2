//! The queue of guesses that need a search, and how long things are kept.
use vstd::prelude::*;

verus! {

/// Maximum number of concurrent sessions.
pub const MAX_SESSIONS: usize = 10_000;

/// Sessions expire after this many seconds without activity.
pub const SESSION_TTL_SECS: u64 = 3600;

/// How many guesses may be searched at the same time.
pub const SERVE_CONCURRENCY: usize = 7;

/// How many parts of one guess may be searched at the same time.
pub const PER_JOB_PARALLELISM: usize = 2;

/// Results are kept for this many seconds.
pub const JOB_RESULT_TTL_SECS: u64 = 3600;

/// Maximum number of queued and running jobs.
pub const MAX_INFLIGHT_JOBS: usize = 200;

/// Seconds that one place in the queue is reckoned to take.
pub const SECONDS_PER_PLACE: u32 = 12;

/// Milliseconds for all parts of one guess.
pub const GUESS_BUDGET_MS: u64 = 20_000;

/// Milliseconds for one part of a guess.
pub const PART_BUDGET_MS: u64 = 8_000;

/// Milliseconds beyond its budget after which a part is given up on.
pub const PART_GRACE_MS: u64 = 2_000;

/// Milliseconds for a hint.
pub const HINT_BUDGET_MS: u64 = 5_000;

/// How many of the first `n` tickets are below `ticket`.
pub open spec fn tickets_ahead(inflight: Seq<u64>, ticket: u64, n: nat) -> nat
    decreases n,
{
    if n == 0 {
        0
    } else {
        tickets_ahead(inflight, ticket, (n - 1) as nat) + if inflight[n - 1] < ticket {
            1nat
        } else {
            0nat
        }
    }
}

/// The place of a ticket in the queue: one more than the tickets ahead of it.
pub fn queue_position(inflight: &[u64], ticket: u64) -> (r: usize)
    requires
        inflight@.len() < usize::MAX,
    ensures
        r == tickets_ahead(inflight@, ticket, inflight@.len()) + 1,
        1 <= r <= inflight@.len() + 1,
{
    let mut n: usize = 0;
    let mut i: usize = 0;
    while i < inflight.len()
        invariant
            i <= inflight@.len(),
            n <= i,
            n == tickets_ahead(inflight@, ticket, i as nat),
        decreases inflight@.len() - i,
    {
        if inflight[i] < ticket {
            n += 1;
        }
        i += 1;
    }
    n + 1
}

/// Whether another job fits the queue.
pub fn accepts_job(inflight: usize) -> (r: bool)
    ensures
        r == (inflight < MAX_INFLIGHT_JOBS),
        r == (inflight < 200),
{
    inflight < MAX_INFLIGHT_JOBS
}

/// Estimated seconds until a result is ready.
pub fn eta_seconds(position: u32) -> (r: u32)
    ensures
        r == if position * 12 <= u32::MAX {
            position * 12
        } else {
            u32::MAX as int
        },
{
    if position <= u32::MAX / SECONDS_PER_PLACE {
        position * SECONDS_PER_PLACE
    } else {
        u32::MAX
    }
}

/// Where a job stands.
#[derive(Debug, Clone, Copy, PartialEq, Eq)]
pub enum JobPhase {
    /// Submitted, waiting for a worker.
    Queued { ticket: u64 },
    /// Being worked on.
    Running { ticket: u64 },
    /// Completed; the result waits to be fetched.
    Done,
    /// Ended with an error.
    Failed,
}

/// What a client that asks is told: the name of the phase, and its place in the
/// queue while it waits or runs.
pub fn phase_report(phase: JobPhase, inflight: &[u64]) -> (r: (&'static str, Option<usize>))
    requires
        inflight@.len() < usize::MAX,
    ensures
        match phase {
            JobPhase::Queued { ticket } => r.0@ == "queued"@ && r.1 == Some(
                (tickets_ahead(inflight@, ticket, inflight@.len()) + 1) as usize,
            ),
            JobPhase::Running { ticket } => r.0@ == "running"@ && r.1 == Some(
                (tickets_ahead(inflight@, ticket, inflight@.len()) + 1) as usize,
            ),
            JobPhase::Done => r.0@ == "done"@ && r.1 is None,
            JobPhase::Failed => r.0@ == "failed"@ && r.1 is None,
        },
{
    match phase {
        JobPhase::Queued { ticket } => ("queued", Some(queue_position(inflight, ticket))),
        JobPhase::Running { ticket } => ("running", Some(queue_position(inflight, ticket))),
        JobPhase::Done => ("done", None),
        JobPhase::Failed => ("failed", None),
    }
}

/// Whether a session is kept after this many seconds without activity.
pub fn keeps_session(idle_secs: u64) -> (r: bool)
    ensures
        r == (idle_secs < SESSION_TTL_SECS),
        r == (idle_secs < 3600),
{
    idle_secs < SESSION_TTL_SECS
}

/// Whether a job is kept: until it ends, and then for a while.
pub fn keeps_job(phase: JobPhase, secs_since_end: u64) -> (r: bool)
    ensures
        r == match phase {
            JobPhase::Queued { .. } => true,
            JobPhase::Running { .. } => true,
            _ => secs_since_end < JOB_RESULT_TTL_SECS,
        },
        !r ==> (phase is Done || phase is Failed) && secs_since_end >= 3600,
        phase is Done || phase is Failed ==> r == (secs_since_end < 3600),
{
    match phase {
        JobPhase::Queued { ticket: _ } => true,
        JobPhase::Running { ticket: _ } => true,
        _ => secs_since_end < JOB_RESULT_TTL_SECS,
    }
}

/// The milliseconds that a part may be searched for, and after which it is given
/// up on, once this many have passed since the guess was taken up. `None` where the
/// time for the guess is used up.
pub fn part_budget(elapsed_ms: u64) -> (r: Option<(u64, u64)>)
    ensures
        r is None == (elapsed_ms >= GUESS_BUDGET_MS),
        r matches Some(b) ==> {
            let left = GUESS_BUDGET_MS - elapsed_ms;
            &&& b.0 == if left < PART_BUDGET_MS {
                left
            } else {
                PART_BUDGET_MS as int
            }
            &&& b.1 == b.0 + PART_GRACE_MS
        },
        r is None <==> elapsed_ms >= 20_000,
        r matches Some(b) ==> 0 < b.0 <= 8_000 && b.0 + elapsed_ms <= 20_000 && (b.0 == 8_000 || b.0 + elapsed_ms == 20_000) && b.1 - b.0
            == 2_000,
{
    if elapsed_ms >= GUESS_BUDGET_MS {
        return None;
    }
    let left: u64 = GUESS_BUDGET_MS - elapsed_ms;
    let own: u64 = if left < PART_BUDGET_MS {
        left
    } else {
        PART_BUDGET_MS
    };
    Some((own, own + PART_GRACE_MS))
}

/// A later ticket never stands ahead of an earlier one.
pub proof fn lemma_queue_order(inflight: Seq<u64>, a: u64, b: u64, n: nat)
    requires
        a <= b,
    ensures
        tickets_ahead(inflight, a, n) <= tickets_ahead(inflight, b, n),
    decreases n,
{
    if n > 0 {
        lemma_queue_order(inflight, a, b, (n - 1) as nat);
    }
}

/// How much the server takes on at once, and for how long.
pub proof fn lemma_limits()
    ensures
        MAX_SESSIONS == 10_000,
        SERVE_CONCURRENCY == 7,
        PER_JOB_PARALLELISM == 2,
        MAX_INFLIGHT_JOBS == 200,
        SESSION_TTL_SECS == 3600,
        JOB_RESULT_TTL_SECS == 3600,
        GUESS_BUDGET_MS == 20_000,
        PART_BUDGET_MS == 8_000,
        PART_GRACE_MS == 2_000,
        HINT_BUDGET_MS == 5_000,
{
}

} // verus!

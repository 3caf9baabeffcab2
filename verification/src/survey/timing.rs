//! How long positions and turns take, measured in milliseconds.
use vstd::prelude::*;

use crate::seqs::lemma_perm_multiset;
use crate::sorting::{before, sorted_order};

verus! {

/// How fast something was.
#[derive(Debug, Clone, Copy, PartialEq, Eq, Structural)]
pub enum Speed {
    /// Less than a second.
    Fast,
    /// A second or more.
    Medium,
    /// Slow enough to look into.
    Slow,
    /// It took all the time there was, or nearly.
    Timeout,
}

/// Results this close to the deadline, in milliseconds, count as timeouts.
pub const DEADLINE_MARGIN_MS: u64 = 200;

/// Classify a time. It is slow from `warn_secs` on; `cancelled` says that the work was
/// given up at the deadline.
pub fn speed_of(elapsed_ms: u64, cancelled: bool, warn_secs: u64, deadline_secs: u64) -> (r: Speed)
    requires
        warn_secs * 1000 <= u64::MAX,
        deadline_secs * 1000 <= u64::MAX,
    ensures
        r == if cancelled || elapsed_ms + DEADLINE_MARGIN_MS >= deadline_secs * 1000 {
            Speed::Timeout
        } else if elapsed_ms >= warn_secs * 1000 {
            Speed::Slow
        } else if elapsed_ms >= 1000 {
            Speed::Medium
        } else {
            Speed::Fast
        },
        r is Timeout <==> cancelled || elapsed_ms + 200 >= deadline_secs * 1000,
        r is Fast ==> elapsed_ms < 1000 && elapsed_ms < warn_secs * 1000,
        r is Medium ==> 1000 <= elapsed_ms < warn_secs * 1000,
        r is Slow ==> elapsed_ms >= warn_secs * 1000,
{
    let timeout_ms: u64 = deadline_secs * 1000;
    let limit: u64 = if timeout_ms > DEADLINE_MARGIN_MS {
        timeout_ms - DEADLINE_MARGIN_MS
    } else {
        0
    };
    if cancelled || elapsed_ms >= limit {
        Speed::Timeout
    } else if elapsed_ms >= warn_secs * 1000 {
        Speed::Slow
    } else if elapsed_ms >= 1000 {
        Speed::Medium
    } else {
        Speed::Fast
    }
}

/// `s` is the times in increasing order.
pub open spec fn sorted_times(times: Seq<u64>, s: Seq<u64>) -> bool {
    s.to_multiset() == times.to_multiset() && s.len() == times.len() && forall|i: int, j: int|
        0 <= i <= j < s.len() ==> s[i] <= s[j]
}

/// The place of a percentile among `n` sorted times.
pub open spec fn percentile_place(n: nat, percent: nat) -> int {
    let p = (n * percent / 100) as int;
    if p < n {
        p
    } else {
        n - 1
    }
}

/// A percentile of the times; zero where there are none.
pub fn percentile(times: &Vec<u64>, percent: usize) -> (r: u64)
    requires
        times@.len() * percent <= usize::MAX,
    ensures
        times@.len() == 0 ==> r == 0,
        times@.len() > 0 ==> exists|s: Seq<u64>| #[trigger]
            sorted_times(times@, s) && r == s[percentile_place(s.len(), percent as nat)],
{
    let n: usize = times.len();
    if n == 0 {
        return 0;
    }
    let ghost leq = |x: int, y: int| times@[x] <= times@[y];
    let le = |x: usize, y: usize| -> (b: bool)
        requires
            x < times@.len(),
            y < times@.len(),
        ensures
            b == (times@[x as int] <= times@[y as int]),
        { times[x] <= times[y] };
    let order = sorted_order(n, &le, Ghost(leq));
    proof {
        let s = Seq::new(n as nat, |t: int| times@[order@[t] as int]);
        lemma_perm_multiset(times@, order@);
        assert forall|i: int, j: int| 0 <= i <= j < s.len() implies s[i] <= s[j] by {
            if i < j {
                assert(before(leq, order@[i] as int, order@[j] as int));
            }
        }
        assert(sorted_times(times@, s));
    }
    let p: usize = n * percent / 100;
    if p < n {
        times[order[p]]
    } else {
        times[order[n - 1]]
    }
}

} // verus!

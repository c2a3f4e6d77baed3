//! Adaptive polling: a floor between polls while catching up, an exponential
//! back-off toward a cap while a shard is idle.

use vstd::prelude::*;

verus! {

/// The sleep controller of one shard's poll loop.
#[derive(Debug)]
pub struct PollBackoff {
    /// The floor between polls, even while catching up.
    min_interval_ms: u64,
    /// The sleep after the first empty poll.
    idle_base_ms: u64,
    /// The cap of the idle sleep.
    max_ms: u64,
    /// The next idle sleep.
    current_idle_ms: u64,
}

/// The state of a sleep controller.
pub struct BackoffState {
    pub min_interval: u64,
    pub idle_base: u64,
    pub max: u64,
    pub current_idle: u64,
}

/// Twice `current`, at most `max`.
pub open spec fn doubled(current: u64, max: u64) -> u64 {
    if 2 * current <= max {
        (2 * current) as u64
    } else {
        max
    }
}

/// The first idle sleep: the base, at most the cap.
pub open spec fn first_idle(idle_base: u64, max: u64) -> u64 {
    if idle_base <= max {
        idle_base
    } else {
        max
    }
}

/// The state of a controller that has not polled yet.
pub open spec fn started(min_interval: u64, idle_base: u64, max: u64) -> BackoffState {
    BackoffState { min_interval, idle_base, max, current_idle: first_idle(idle_base, max) }
}

/// How long to sleep after a poll.
pub open spec fn sleep_after(s: BackoffState, got_records: bool) -> u64 {
    if got_records {
        s.min_interval
    } else {
        s.current_idle
    }
}

/// The state after a poll: records restore the first idle sleep, an empty poll
/// doubles it up to the cap.
pub open spec fn state_after(s: BackoffState, got_records: bool) -> BackoffState {
    BackoffState {
        current_idle: if got_records {
            first_idle(s.idle_base, s.max)
        } else {
            doubled(s.current_idle, s.max)
        },
        ..s
    }
}

impl View for PollBackoff {
    type V = BackoffState;

    closed spec fn view(&self) -> BackoffState {
        BackoffState {
            min_interval: self.min_interval_ms,
            idle_base: self.idle_base_ms,
            max: self.max_ms,
            current_idle: self.current_idle_ms,
        }
    }
}

impl Clone for PollBackoff {
    fn clone(&self) -> (b: Self)
        ensures
            b@ == self@,
    {
        proof {
            use_type_invariant(self);
        }
        PollBackoff {
            min_interval_ms: self.min_interval_ms,
            idle_base_ms: self.idle_base_ms,
            max_ms: self.max_ms,
            current_idle_ms: self.current_idle_ms,
        }
    }
}

impl PollBackoff {
    /// The idle sleep is never above its cap.
    #[verifier::type_invariant]
    spec fn is_capped(self) -> bool {
        self.current_idle_ms <= self.max_ms
    }

    /// A controller that has not polled yet.
    pub fn new(min_interval_ms: u64, idle_base_ms: u64, max_ms: u64) -> (b: Self)
        ensures
            b@ == started(min_interval_ms, idle_base_ms, max_ms),
    {
        let current_idle_ms: u64 = if idle_base_ms <= max_ms {
            idle_base_ms
        } else {
            max_ms
        };
        PollBackoff { min_interval_ms, idle_base_ms, max_ms, current_idle_ms }
    }

    /// The defaults for DynamoDB Streams: about four polls a second while
    /// catching up, one second when idle, backing off to five.
    pub fn ddb_defaults() -> (b: Self)
        ensures
            b@ == (BackoffState {
                min_interval: 250,
                idle_base: 1_000,
                max: 5_000,
                current_idle: 1_000,
            }),
    {
        PollBackoff::new(250, 1_000, 5_000)
    }

    /// Note the outcome of a poll and return how long to sleep before the next.
    pub fn next_sleep_ms(&mut self, got_records: bool) -> (ms: u64)
        ensures
            ms == sleep_after(old(self)@, got_records),
            final(self)@ == state_after(old(self)@, got_records),
            !got_records ==> ms <= old(self)@.max,
    {
        proof {
            use_type_invariant(&*self);
        }
        if got_records {
            self.current_idle_ms =
            if self.idle_base_ms <= self.max_ms {
                self.idle_base_ms
            } else {
                self.max_ms
            };
            self.min_interval_ms
        } else {
            let sleep: u64 = self.current_idle_ms;
            self.current_idle_ms =
            if sleep > self.max_ms / 2 {
                self.max_ms
            } else {
                sleep * 2
            };
            sleep
        }
    }
}

/// The state after `n` empty polls in a row.
pub open spec fn state_after_idle(s: BackoffState, n: nat) -> BackoffState
    decreases n,
{
    if n == 0 {
        s
    } else {
        state_after(state_after_idle(s, (n - 1) as nat), false)
    }
}

/// The state after some polls, of which each brought records or not.
pub open spec fn state_after_polls(s: BackoffState, polls: Seq<bool>) -> BackoffState
    decreases polls.len(),
{
    if polls.len() == 0 {
        s
    } else {
        state_after(state_after_polls(s, polls.drop_last()), polls.last())
    }
}

proof fn lemma_polls_keep_the_cap(s: BackoffState, polls: Seq<bool>)
    requires
        s.current_idle <= s.max,
    ensures
        state_after_polls(s, polls).current_idle <= s.max,
        state_after_polls(s, polls) == (BackoffState {
            current_idle: state_after_polls(s, polls).current_idle,
            ..s
        }),
    decreases polls.len(),
{
    if polls.len() > 0 {
        lemma_polls_keep_the_cap(s, polls.drop_last());
    }
}

proof fn lemma_idle_sleep_doubles(s: BackoffState, n: nat)
    requires
        s.current_idle == first_idle(s.idle_base, s.max),
    ensures
        state_after_idle(s, n).current_idle == (if s.idle_base * vstd::arithmetic::power2::pow2(n)
            <= s.max {
            s.idle_base * vstd::arithmetic::power2::pow2(n)
        } else {
            s.max as int
        }),
        state_after_idle(s, n).max == s.max,
    decreases n,
{
    vstd::arithmetic::power2::lemma2_to64();
    if n > 0 {
        let m = (n - 1) as nat;
        lemma_idle_sleep_doubles(s, m);
        vstd::arithmetic::power2::lemma_pow2_unfold(n);
        let (p, q) = (vstd::arithmetic::power2::pow2(n), vstd::arithmetic::power2::pow2(m));
        assert(s.idle_base * p == 2 * (s.idle_base * q)) by (nonlinear_arith)
            requires
                p == 2 * q,
        ;
        assert(s.idle_base * q >= 0) by (nonlinear_arith);
    }
}

/// From the start, and after records again, `n` empty polls make the next idle
/// sleep the base times two to the `n`, at most the cap.
pub proof fn law_idle_sleep_doubles_up_to_the_cap(
    min_interval: u64,
    idle_base: u64,
    max: u64,
    polls: Seq<bool>,
    n: nat,
)
    ensures
        ({
            let s = started(min_interval, idle_base, max);
            let t = state_after(state_after_polls(s, polls), true);
            let power = vstd::arithmetic::power2::pow2(n);
            let sleep = if idle_base * power <= max {
                idle_base * power
            } else {
                max as int
            };
            &&& sleep_after(state_after_idle(s, n), false) == sleep
            &&& sleep_after(state_after_idle(t, n), false) == sleep
        }),
{
    let s = started(min_interval, idle_base, max);
    lemma_idle_sleep_doubles(s, n);
    lemma_polls_keep_the_cap(s, polls);
    lemma_idle_sleep_doubles(state_after(state_after_polls(s, polls), true), n);
}

/// Whatever the polls brought, the idle sleep never exceeds the cap, and it
/// never shrinks while the shard stays idle.
pub proof fn law_idle_sleep_grows_to_the_cap(
    min_interval: u64,
    idle_base: u64,
    max: u64,
    polls: Seq<bool>,
)
    ensures
        ({
            let s = state_after_polls(started(min_interval, idle_base, max), polls);
            &&& sleep_after(s, false) <= max
            &&& sleep_after(s, false) <= sleep_after(state_after(s, false), false) <= max
        }),
{
    lemma_polls_keep_the_cap(started(min_interval, idle_base, max), polls);
}

/// Records bring the idle sleep back to its base, at most the cap, and the pace
/// to the floor.
pub proof fn law_records_reset_the_backoff(s: BackoffState)
    ensures
        sleep_after(s, true) == s.min_interval,
        sleep_after(state_after(s, true), false) == first_idle(s.idle_base, s.max),
{
}

} // verus!

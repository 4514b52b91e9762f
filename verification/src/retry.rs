//! The retry policy: exponential backoff with full jitter, and the point at
//! which a message is given up.

use crate::error::ConfigError;
use crate::outcome::Outcome;
use vstd::arithmetic::power::pow;
use vstd::math::min;
use vstd::prelude::*;

verus! {

/// What to do after an attempt that did not succeed.
#[derive(Clone, Copy, Debug, PartialEq, Eq, Structural)]
pub enum RetryDecision {
    /// Try again after a wait of at most this many milliseconds.
    Delay(u64),
    /// Do not try again.
    GiveUp,
}

/// The parameters of the backoff.
#[derive(Clone, Copy, Debug, PartialEq, Eq, Structural)]
pub struct RetryPolicy {
    base_ms: u64,
    factor: u64,
    cap_ms: u64,
    max_attempts: u32,
}

/// The longest wait after the attempt with the given index, counted from 1:
/// the base grown by the factor once per earlier attempt, and never more
/// than the cap.
pub open spec fn ceiling_ms(base_ms: u64, factor: u64, cap_ms: u64, attempt: u32) -> int
    recommends
        attempt >= 1,
{
    min(cap_ms as int, base_ms * pow(factor as int, (attempt - 1) as nat))
}

/// The wait picked from `[0, ceiling]` by a random sample.
pub open spec fn jittered_ms(ceiling: u64, sample: u64) -> int {
    sample as int % (ceiling as int + 1)
}

proof fn lemma_pow_nonnegative(b: int, e: nat)
    requires
        b >= 0,
    ensures
        pow(b, e) >= 0,
    decreases e,
{
    reveal(pow);
    if e > 0 {
        lemma_pow_nonnegative(b, (e - 1) as nat);
        assert(b * pow(b, (e - 1) as nat) >= 0) by (nonlinear_arith)
            requires
                b >= 0,
                pow(b, (e - 1) as nat) >= 0,
        ;
    }
}

proof fn lemma_capped_growth(cap: int, x: int, f: int)
    requires
        cap >= 0,
        x >= 0,
        f >= 0,
    ensures
        min(cap, min(cap, x) * f) == min(cap, x * f),
{
    if x > cap && f >= 1 {
        assert(cap * f >= cap && x * f >= cap) by (nonlinear_arith)
            requires
                cap >= 0,
                x > cap,
                f >= 1,
        ;
    }
    if f == 0 {
        assert(min(cap, x) * f == 0 && x * f == 0) by (nonlinear_arith)
            requires
                f == 0,
        ;
    }
}

impl RetryPolicy {
    /// Milliseconds of the first ceiling.
    pub closed spec fn spec_base_ms(self) -> u64 {
        self.base_ms
    }

    /// The factor by which the ceiling grows from one attempt to the next.
    pub closed spec fn spec_factor(self) -> u64 {
        self.factor
    }

    /// Milliseconds that no ceiling exceeds.
    pub closed spec fn spec_cap_ms(self) -> u64 {
        self.cap_ms
    }

    /// The number of attempts after which a message is given up.
    pub closed spec fn spec_max_attempts(self) -> u32 {
        self.max_attempts
    }

    /// A policy allows at least one attempt.
    pub open spec fn wf(self) -> bool {
        self.spec_max_attempts() >= 1
    }

    /// The longest wait after the attempt with the given index.
    pub open spec fn ceiling(self, attempt: u32) -> int
        recommends
            attempt >= 1,
    {
        ceiling_ms(self.spec_base_ms(), self.spec_factor(), self.spec_cap_ms(), attempt)
    }

    /// The decision after the attempt with the given index ended in the given
    /// outcome: nothing after a success, giving up at once after a permanent
    /// failure, and after a retriable one a wait while attempts are left.
    pub open spec fn decision(self, attempt: u32, outcome: Outcome) -> Option<RetryDecision> {
        match outcome {
            Outcome::Success => None,
            Outcome::Permanent(_) => Some(RetryDecision::GiveUp),
            Outcome::Retriable(_) => if attempt < self.spec_max_attempts() {
                Some(RetryDecision::Delay(self.ceiling(attempt) as u64))
            } else {
                Some(RetryDecision::GiveUp)
            },
        }
    }

    /// A policy with the given parameters, refused when it allows no attempt.
    pub fn new(base_ms: u64, factor: u64, cap_ms: u64, max_attempts: u32) -> (r: Result<
        RetryPolicy,
        ConfigError,
    >)
        ensures
            max_attempts == 0 ==> r == Err::<RetryPolicy, ConfigError>(
                ConfigError::ZeroMaxAttempts,
            ),
            max_attempts >= 1 ==> r is Ok && r->Ok_0.wf() && r->Ok_0.spec_base_ms() == base_ms
                && r->Ok_0.spec_factor() == factor && r->Ok_0.spec_cap_ms() == cap_ms
                && r->Ok_0.spec_max_attempts() == max_attempts,
    {
        if max_attempts == 0 {
            Err(ConfigError::ZeroMaxAttempts)
        } else {
            Ok(RetryPolicy { base_ms, factor, cap_ms, max_attempts })
        }
    }

    /// Milliseconds of the first ceiling.
    pub fn base_ms(&self) -> (v: u64)
        ensures
            v == self.spec_base_ms(),
    {
        self.base_ms
    }

    /// The factor by which the ceiling grows from one attempt to the next.
    pub fn factor(&self) -> (v: u64)
        ensures
            v == self.spec_factor(),
    {
        self.factor
    }

    /// Milliseconds that no ceiling exceeds.
    pub fn cap_ms(&self) -> (v: u64)
        ensures
            v == self.spec_cap_ms(),
    {
        self.cap_ms
    }

    /// The number of attempts after which a message is given up.
    pub fn max_attempts(&self) -> (v: u32)
        ensures
            v == self.spec_max_attempts(),
    {
        self.max_attempts
    }

    /// The longest wait, in milliseconds, after the attempt with the given
    /// index.
    pub fn backoff_ceiling(&self, attempt: u32) -> (ceiling: u64)
        requires
            attempt >= 1,
        ensures
            ceiling == self.ceiling(attempt),
            ceiling <= self.spec_cap_ms(),
    {
        let cap: u64 = self.cap_ms;
        let factor: u64 = self.factor;
        let mut current: u64 = if self.base_ms < cap {
            self.base_ms
        } else {
            cap
        };
        let mut index: u32 = 1;
        proof {
            reveal(pow);
            assert(pow(factor as int, 0) == 1);
        }
        while index < attempt
            invariant
                1 <= index <= attempt,
                cap == self.cap_ms,
                factor == self.factor,
                current == self.ceiling(index),
            decreases attempt - index,
        {
            assert(current * factor <= 0xffff_ffff_ffff_ffff * 0xffff_ffff_ffff_ffff)
                by (nonlinear_arith)
                requires
                    0 <= current <= 0xffff_ffff_ffff_ffff,
                    0 <= factor <= 0xffff_ffff_ffff_ffff,
            ;
            let grown: u128 = (current as u128) * (factor as u128);
            proof {
                let before = self.base_ms * pow(factor as int, (index - 1) as nat);
                lemma_pow_nonnegative(factor as int, (index - 1) as nat);
                assert(before >= 0) by (nonlinear_arith)
                    requires
                        before == self.base_ms * pow(factor as int, (index - 1) as nat),
                        pow(factor as int, (index - 1) as nat) >= 0,
                ;
                lemma_capped_growth(cap as int, before, factor as int);
                reveal(pow);
                assert(pow(factor as int, index as nat) == factor * pow(
                    factor as int,
                    (index - 1) as nat,
                ));
                assert(self.base_ms * pow(factor as int, index as nat) == before * factor)
                    by (nonlinear_arith)
                    requires
                        before == self.base_ms * pow(factor as int, (index - 1) as nat),
                        pow(factor as int, index as nat) == factor * pow(
                            factor as int,
                            (index - 1) as nat,
                        ),
                ;
            }
            current = if grown < cap as u128 {
                grown as u64
            } else {
                cap
            };
            index = index + 1;
        }
        current
    }

    /// The decision after the attempt with the given index ended in the given
    /// outcome. The wait it names is the ceiling; `full_jitter` picks the
    /// wait itself.
    pub fn next(&self, attempt: u32, outcome: Outcome) -> (decision: Option<RetryDecision>)
        requires
            attempt >= 1,
        ensures
            decision == self.decision(attempt, outcome),
    {
        match outcome {
            Outcome::Success => None,
            Outcome::Permanent(_) => Some(RetryDecision::GiveUp),
            Outcome::Retriable(_) => {
                if attempt < self.max_attempts {
                    Some(RetryDecision::Delay(self.backoff_ceiling(attempt)))
                } else {
                    Some(RetryDecision::GiveUp)
                }
            },
        }
    }
}

impl Default for RetryPolicy {
    /// Base 200 ms, factor 2, cap 30 s, eight attempts.
    fn default() -> (policy: RetryPolicy)
        ensures
            policy.wf(),
            policy.spec_base_ms() == 200,
            policy.spec_factor() == 2,
            policy.spec_cap_ms() == 30_000,
            policy.spec_max_attempts() == 8,
    {
        RetryPolicy { base_ms: 200, factor: 2, cap_ms: 30_000, max_attempts: 8 }
    }
}

/// Full jitter: the wait, in milliseconds, that a random sample picks from
/// `[0, ceiling_ms]`.
pub fn full_jitter(ceiling_ms: u64, sample: u64) -> (wait: u64)
    ensures
        wait == jittered_ms(ceiling_ms, sample),
        wait <= ceiling_ms,
{
    if ceiling_ms == u64::MAX {
        sample
    } else {
        sample % (ceiling_ms + 1)
    }
}

/// Each ceiling lies between zero and the cap, and the first one is the
/// base wherever the base is under the cap.
pub proof fn lemma_ceiling_bounds(policy: RetryPolicy, attempt: u32)
    requires
        attempt >= 1,
    ensures
        0 <= policy.ceiling(attempt) <= policy.spec_cap_ms(),
        policy.ceiling(1) == min(policy.spec_cap_ms() as int, policy.spec_base_ms() as int),
{
    reveal(pow);
    assert(pow(policy.spec_factor() as int, 0) == 1);
    lemma_pow_nonnegative(policy.spec_factor() as int, (attempt - 1) as nat);
    assert(policy.spec_base_ms() * pow(policy.spec_factor() as int, (attempt - 1) as nat) >= 0)
        by (nonlinear_arith)
        requires
            pow(policy.spec_factor() as int, (attempt - 1) as nat) >= 0,
    ;
}

} // verus!

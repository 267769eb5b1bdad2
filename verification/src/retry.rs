//! Retry policy: backoff delays between attempts.

use vstd::prelude::*;

verus! {

/// Fixed-point scale of the backoff multiplier: a multiplier of
/// `MULTIPLIER_UNIT` means exactly 1.0.
pub const MULTIPLIER_UNIT: u64 = 1000;

/// One backoff step, saturating at `u64::MAX` milliseconds.
pub open spec fn backoff_step(delay_ms: nat, multiplier_milli: nat) -> nat {
    let next = delay_ms * multiplier_milli / (MULTIPLIER_UNIT as nat);
    if next > u64::MAX {
        u64::MAX as nat
    } else {
        next
    }
}

/// The delay before the retry after `exponent + 1` attempts:
/// `base_delay_ms` multiplied `exponent` times by the fixed-point
/// multiplier, each step saturating at `u64::MAX` milliseconds.
pub open spec fn backoff_ms(base_delay_ms: nat, multiplier_milli: nat, exponent: nat) -> nat
    decreases exponent,
{
    if exponent == 0 {
        base_delay_ms
    } else {
        backoff_step(backoff_ms(base_delay_ms, multiplier_milli, (exponent - 1) as nat),
            multiplier_milli)
    }
}

/// Retry policy: exponential backoff with a fixed-point multiplier
/// (`multiplier_milli` is in thousandths, so 2000 means doubling).
#[derive(Debug, Clone, Copy, PartialEq, Eq, Structural)]
pub struct RetryPolicy {
    /// Delay before the first retry, in milliseconds.
    pub base_delay_ms: u64,
    /// Backoff multiplier, in thousandths.
    pub multiplier_milli: u64,
}

impl RetryPolicy {
    /// The stock policy: two seconds base delay, doubling each retry.
    pub fn default_v1() -> (r: Self)
        ensures
            r == (RetryPolicy { base_delay_ms: 2000u64, multiplier_milli: 2000u64 }),
    {
        RetryPolicy { base_delay_ms: 2000, multiplier_milli: 2000 }
    }

    /// The delay before the next retry, given how many attempts were
    /// already made (`attempts` of 0 or 1 both give the base delay).
    pub fn next_delay(&self, attempts: u32) -> (r: u64)
        ensures
            r == backoff_ms(
                self.base_delay_ms as nat,
                self.multiplier_milli as nat,
                if attempts == 0 { 0nat } else { (attempts - 1) as nat },
            ),
            attempts == 0 ==> r == self.base_delay_ms,
    {
        let exponent: u32 = if attempts == 0 { 0 } else { attempts - 1 };
        let mut delay: u64 = self.base_delay_ms;
        let mut k: u32 = 0;
        while k < exponent
            invariant
                k <= exponent,
                delay == backoff_ms(self.base_delay_ms as nat, self.multiplier_milli as nat,
                    k as nat),
            decreases exponent - k,
        {
            proof {
                assert((delay as int) * (self.multiplier_milli as int) <= u128::MAX as int)
                    by (nonlinear_arith)
                    requires
                        delay as int <= u64::MAX as int,
                        self.multiplier_milli as int <= u64::MAX as int,
                ;
            }
            let wide: u128 = (delay as u128) * (self.multiplier_milli as u128)
                / (MULTIPLIER_UNIT as u128);
            delay = if wide > u64::MAX as u128 {
                u64::MAX
            } else {
                wide as u64
            };
            k = k + 1;
        }
        delay
    }
}

} // verus!

//! Distributed id minting: ULID-style 128-bit ids from a clock plus a
//! random tail. The in-memory store mints its own sequential ids; this
//! generator serves callers that need globally unique, time-ordered ids.

use vstd::prelude::*;

use crate::clock::Clock;
use crate::ids::{AttemptId, JobId, TaskId};

verus! {

/// Relies on `rand::random`: a value drawn from the thread-local
/// generator. The result is random, so nothing is promised of it.
#[verifier::external_body]
fn random_tail() -> u128 {
    rand::random()
}

/// Relies on `ulid::Ulid::from_parts`: the low 48 bits of the timestamp
/// over the low 80 bits of the random part, overflow bits discarded.
#[verifier::external_body]
fn ulid_from_parts(timestamp_ms: u64, random: u128) -> (r: u128)
    ensures
        r == (((timestamp_ms & 0xFFFF_FFFF_FFFFu64) as u128) << 80u32) | (random
            & 0xFFFF_FFFF_FFFF_FFFF_FFFFu128),
{
    ulid::Ulid::from_parts(timestamp_ms, random).0
}

/// One fresh 128-bit id minted at `now_ms`: the low 48 bits of the
/// timestamp over a freshly drawn 80-bit random tail. The tail is
/// random, so only its existence is promised; the time prefix is exact.
pub fn ulid_at(now_ms: u64) -> (r: u128)
    ensures
        r >> 80u32 == ((now_ms & 0xFFFF_FFFF_FFFFu64) as u128),
        exists|tail: u128|
            r == (((now_ms & 0xFFFF_FFFF_FFFFu64) as u128) << 80u32) | (#[trigger] (tail
                & 0xFFFF_FFFF_FFFF_FFFF_FFFFu128)),
{
    let tail = random_tail();
    let r = ulid_from_parts(now_ms, tail);
    proof {
        let ts = now_ms;
        assert(((((ts & 0xFFFF_FFFF_FFFFu64) as u128) << 80u32) | (tail
            & 0xFFFF_FFFF_FFFF_FFFF_FFFFu128)) >> 80u32 == ((ts & 0xFFFF_FFFF_FFFFu64) as u128))
            by (bit_vector);
        assert(tail & 0xFFFF_FFFF_FFFF_FFFF_FFFFu128 == (tail & 0xFFFF_FFFF_FFFF_FFFF_FFFFu128)
            & 0xFFFF_FFFF_FFFF_FFFF_FFFFu128) by (bit_vector);
    }
    r
}

/// Mints the distinct id families.
pub trait IdGenerator {
    fn generate_job_id(&self) -> JobId;

    fn generate_task_id(&self) -> TaskId;

    fn generate_attempt_id(&self) -> AttemptId;
}

/// ULID-style generation over any clock: ids sort by mint time, and the
/// random tail keeps independently minted ids distinct in practice.
#[derive(Debug, Clone, Copy)]
pub struct UlidGenerator<C> {
    clock: C,
}

impl<C: Clock> UlidGenerator<C> {
    pub fn new(clock: C) -> Self {
        UlidGenerator { clock }
    }
}

impl<C: Clock> IdGenerator for UlidGenerator<C> {
    fn generate_job_id(&self) -> JobId {
        JobId::new(ulid_at(self.clock.now_ms()))
    }

    fn generate_task_id(&self) -> TaskId {
        TaskId::new(ulid_at(self.clock.now_ms()))
    }

    fn generate_attempt_id(&self) -> AttemptId {
        AttemptId::new(ulid_at(self.clock.now_ms()))
    }
}

} // verus!

//! Time, as the chunk manager reads it: nanoseconds on a clock that started
//! when the manager was made.
//!
//! The standard library's `Instant` and `Duration` are opaque here. Of what
//! the clock returns nothing is assumed but the bounds that the standard
//! library documents; whatever depends on the time is proved for every time.

use std::time::{Duration, Instant};
use vstd::prelude::*;

verus! {

/// `std::time::Instant`.
#[verifier::external_type_specification]
#[verifier::external_body]
pub struct ExInstant(Instant);

/// `Instant::now`: the present moment, whatever it is.
pub assume_specification[ Instant::now ]() -> (now: Instant)
;

/// `Instant::elapsed`: the time since `earlier`, whatever it is.
pub assume_specification[ Instant::elapsed ](earlier: &Instant) -> (since: Duration)
;

/// `Duration::as_secs`: the whole seconds of a duration.
pub assume_specification[ Duration::as_secs ](duration: &Duration) -> (secs: u64)
;

/// `Duration::subsec_nanos`: the part of a duration below one second, in
/// nanoseconds, which is less than a billion.
pub assume_specification[ Duration::subsec_nanos ](duration: &Duration) -> (nanos: u32)
    ensures
        nanos < 1_000_000_000,
;

/// Nanoseconds in a second.
pub const NANOS_PER_SEC: u128 = 1_000_000_000;

/// No reading of a [`Clock`] reaches this many nanoseconds.
pub const CLOCK_LIMIT: u128 = 0x1_0000_0000_0000_0000 * NANOS_PER_SEC;

/// A clock that counts nanoseconds from the moment it was made.
pub struct Clock {
    epoch: Instant,
}

impl Clock {
    /// A clock that starts now.
    pub fn new() -> Clock {
        Clock { epoch: Instant::now() }
    }

    /// The nanoseconds since the clock was made.
    pub fn now(&self) -> (nanos: u128)
        ensures
            nanos < CLOCK_LIMIT,
    {
        let since = self.epoch.elapsed();
        let secs: u64 = since.as_secs();
        let below: u32 = since.subsec_nanos();
        proof {
            lemma_span_below_limit(secs, below);
        }
        nanos_of(secs, below)
    }
}

/// The nanoseconds in a span of `secs` whole seconds and `below` nanoseconds
/// more.
pub open spec fn span_nanos(secs: u64, below: u32) -> int {
    secs * NANOS_PER_SEC + below
}

/// A span whose part below the second is less than a second stays under the
/// limit of the clock.
pub proof fn lemma_span_below_limit(secs: u64, below: u32)
    requires
        below < NANOS_PER_SEC,
    ensures
        span_nanos(secs, below) < CLOCK_LIMIT,
{
    assert(secs * NANOS_PER_SEC + below < CLOCK_LIMIT) by (nonlinear_arith)
        requires
            secs < 0x1_0000_0000_0000_0000,
            below < 1_000_000_000,
            NANOS_PER_SEC == 1_000_000_000,
            CLOCK_LIMIT == 0x1_0000_0000_0000_0000 * NANOS_PER_SEC,
    ;
}

/// The nanoseconds in a span of `secs` whole seconds and `below` nanoseconds
/// more: what a reading of the clock comes to.
pub fn nanos_of(secs: u64, below: u32) -> (nanos: u128)
    ensures
        nanos == span_nanos(secs, below),
{
    assert(secs * NANOS_PER_SEC + below <= u128::MAX) by (nonlinear_arith)
        requires
            secs < 0x1_0000_0000_0000_0000,
            below < 0x1_0000_0000,
            NANOS_PER_SEC == 1_000_000_000,
    ;
    (secs as u128) * NANOS_PER_SEC + (below as u128)
}

} // verus!

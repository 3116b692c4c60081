//! The clock, as the imposters' kill cooldown reads it. Nothing about the
//! instants and durations that come back is known to the verifier: they
//! depend on when the calls are made.

use std::time::Duration;
use std::time::Instant;
use vstd::prelude::*;

verus! {

#[verifier::external_type_specification]
#[verifier::external_body]
pub struct ExInstant(Instant);

/// `Instant::now`: the current instant. Nothing is stated of it.
#[verifier::external_body]
pub(crate) fn instant_now() -> Instant {
    Instant::now()
}

/// `Instant::elapsed` of `since`, read as whole nanoseconds with
/// `Duration::as_nanos`. Which time comes back depends on when the call is
/// made; what holds of every outcome is that it is the length of a
/// `Duration`, so it lies below `max_duration_nanos()`.
#[verifier::external_body]
pub(crate) fn nanos_elapsed_since(since: &Instant) -> (r: u128)
    ensures
        r < max_duration_nanos(),
{
    since.elapsed().as_nanos()
}

/// One more than the largest number of nanoseconds that a `Duration`
/// holds: `u64::MAX` whole seconds and just under one more second.
pub open spec fn max_duration_nanos() -> int {
    18446744073709551616int * 1_000_000_000int
}

/// The total number of whole nanoseconds in `d`, as `Duration::as_nanos`
/// gives it.
pub uninterp spec fn duration_as_nanos(d: Duration) -> u128;

/// `Duration::as_nanos`: the named length of `d`, which lies below the bound
/// that every `Duration` keeps (whole seconds fit in a `u64`, the fraction is
/// under a second).
#[verifier::external_body]
pub(crate) fn duration_nanos(d: &Duration) -> (r: u128)
    ensures
        r == duration_as_nanos(*d),
        r < max_duration_nanos(),
{
    d.as_nanos()
}

/// `Duration::new(secs, nanos)`: with `nanos` below one second (which keeps
/// `Duration::new` from carrying into, and possibly overflowing, the
/// seconds), the duration is `secs` seconds and `nanos` nanoseconds, so its
/// length in nanoseconds is `secs * 1_000_000_000 + nanos`.
#[verifier::external_body]
pub(crate) fn duration_from_parts(secs: u64, nanos: u32) -> (r: Duration)
    requires
        nanos < 1_000_000_000,
    ensures
        duration_as_nanos(r) == secs * 1_000_000_000 + nanos,
{
    Duration::new(secs, nanos)
}

/// The text that `format!("{:#?}", d)` makes of `d = Duration::new(secs,
/// nanos)`: `Duration`'s alternate `Debug` output.
pub uninterp spec fn duration_debug_text(secs: u64, nanos: u32) -> Seq<char>;

/// `format!("{:#?}", Duration::new(secs, nanos))`; the text is named, not
/// spelled out.
#[verifier::external_body]
pub(crate) fn duration_debug(secs: u64, nanos: u32) -> (r: String)
    requires
        nanos < 1_000_000_000,
    ensures
        r@ == duration_debug_text(secs, nanos),
{
    format!("{:#?}", Duration::new(secs, nanos))
}

} // verus!

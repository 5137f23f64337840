//! The monotonic clock, as far as the library measures its own work with it.

use vstd::prelude::*;

verus! {

/// A reading of the monotonic clock.
#[verifier::external_type_specification]
#[verifier::external_body]
pub struct ExInstant(std::time::Instant);

/// `std::time::Instant::now`. Nothing is claimed of the reading.
#[verifier::external_body]
pub(crate) fn now() -> (reading: std::time::Instant) {
    std::time::Instant::now()
}

/// `std::time::Instant::elapsed`, in nanoseconds. Nothing is claimed of the number.
#[verifier::external_body]
fn nanos_since(started: std::time::Instant) -> (nanos: u128) {
    started.elapsed().as_nanos()
}

/// A number of nanoseconds in 64 bits, the largest such number where it does not fit.
pub fn saturate_ns(nanos: u128) -> (ns: u64)
    ensures
        ns == if nanos <= u64::MAX {
            nanos as int
        } else {
            u64::MAX as int
        },
{
    if nanos <= u64::MAX as u128 {
        nanos as u64
    } else {
        u64::MAX
    }
}

/// How many nanoseconds have passed since `started`, as `saturate_ns` has them. The number is up to
/// the moment of the call, so nothing is said of it.
pub fn elapsed_ns(started: std::time::Instant) -> (ns: u64) {
    saturate_ns(nanos_since(started))
}

} // verus!

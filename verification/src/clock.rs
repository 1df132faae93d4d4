//! Monotonic clock used to group consecutive typing into one undo step.

use vstd::prelude::*;

verus! {

#[verifier::external_type_specification]
#[verifier::external_body]
pub struct ExInstant(std::time::Instant);

/// `std::time::Instant::now`: the current monotonic time; nothing is promised of it.
#[verifier::external_body]
pub(crate) fn instant_now() -> std::time::Instant {
    std::time::Instant::now()
}

/// `std::time::Instant::duration_since`: time elapsed from `earlier` to `later`
/// (zero when `earlier` is later); nothing is promised of it here.
#[verifier::external_body]
pub(crate) fn instant_duration_since(later: &std::time::Instant, earlier: &std::time::Instant) -> std::time::Duration {
    later.duration_since(*earlier)
}

/// `std::time::Duration::as_millis`: the whole milliseconds of `d`.
#[verifier::external_body]
pub(crate) fn duration_millis(d: &std::time::Duration) -> u128 {
    d.as_millis()
}

} // verus!

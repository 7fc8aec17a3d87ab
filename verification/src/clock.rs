use vstd::prelude::*;

verus! {

/// The current time in milliseconds since the Unix epoch.
///
/// Trusted: calls `chrono::Utc::now()` and `DateTime::timestamp_millis`. The
/// clock is read as a duration since the epoch, so whatever comes back is not
/// negative; nothing else is claimed. `Utc::now` panics on a machine whose
/// clock is set before 1970.
#[verifier::external_body]
pub(crate) fn now_millis() -> (now: i64)
    ensures
        now >= 0,
{
    chrono::Utc::now().timestamp_millis()
}

} // verus!

use vstd::prelude::*;

verus! {

/// Seconds since the Unix epoch, from `std::time::SystemTime::now`; nothing
/// where the clock reads a time before the epoch (`duration_since` fails
/// there). Nothing is stated of the value: it is whatever the machine's
/// clock reads.
#[verifier::external_body]
pub(crate) fn unix_now() -> (r: Option<u64>) {
    std::time::SystemTime::now().duration_since(std::time::UNIX_EPOCH).ok().map(|d| d.as_secs())
}

} // verus!

//! Fresh identifiers and the wall clock, taken from `uuid` and `chrono`.
//!
//! Identifiers are UUIDs held as their 128-bit value; instants are
//! microseconds since the Unix epoch (UTC).

use vstd::prelude::*;

verus! {

/// Calls `uuid::Uuid::new_v4` and hands back the UUID's 128-bit value
/// (`as_u128`, big-endian). The value is random; what is stated is that its
/// version nibble is 4 and its variant bits are `10`, which `new_v4` sets
/// on every value.
#[verifier::external_body]
pub(crate) fn new_id() -> (id: u128)
    ensures
        id & 0xF000_C000_0000_0000_0000u128 == 0x4000_8000_0000_0000_0000u128,
{
    uuid::Uuid::new_v4().as_u128()
}

/// Calls `chrono::Utc::now` and hands back `timestamp_micros()` of the
/// result. The value depends on the clock: nothing is stated of it.
#[verifier::external_body]
pub(crate) fn now_micros() -> (t: i64) {
    chrono::Utc::now().timestamp_micros()
}

/// What `chrono` prints for the instant `micros` (microseconds since the
/// epoch, UTC) under the format `%Y%m%dT%H%M%SZ`.
pub uninterp spec fn utc_compact_stamp(micros: i64) -> Seq<char>;

/// Calls `chrono::DateTime::<Utc>::from_timestamp_micros` and formats the
/// instant with `%Y%m%dT%H%M%SZ`; an instant outside chrono's range gives the
/// empty string. The text is a function of `micros` alone: the contract
/// names it and says nothing more.
#[verifier::external_body]
pub(crate) fn compact_stamp(micros: i64) -> (s: String)
    ensures
        s@ == utc_compact_stamp(micros),
{
    match chrono::DateTime::<chrono::Utc>::from_timestamp_micros(micros) {
        Some(t) => t.format("%Y%m%dT%H%M%SZ").to_string(),
        None => String::new(),
    }
}

} // verus!

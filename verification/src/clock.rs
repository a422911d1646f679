//! Identifier and timestamp generation, delegated to outside crates.
//!
//! Both results depend on the machine's state (randomness, the clock),
//! so nothing is promised of their values: every caller's contract holds
//! whatever comes back.  Both calls can abort on environmental failure
//! — a broken randomness source, a clock before the epoch — which no
//! input could exclude; that is of the same kind as running out of
//! memory.

use vstd::prelude::*;

verus! {

/// Relies on `uuid::Uuid::new_v4` and its `Display` impl: a fresh random
/// identifier in the canonical hyphenated form, which is 36 characters.
#[verifier::external_body]
pub fn new_id() -> (r: String)
    ensures
        r@.len() == 36,
{
    uuid::Uuid::new_v4().to_string()
}

/// Relies on `chrono::Utc::now` and `DateTime::to_rfc3339`: the current
/// wall-clock time as an RFC 3339 / ISO 8601 string.  The value depends
/// on the clock, so nothing is stated of it.
#[verifier::external_body]
pub fn now_rfc3339() -> (r: String)
    ensures
        r@.len() > 0,
{
    chrono::Utc::now().to_rfc3339()
}

} // verus!

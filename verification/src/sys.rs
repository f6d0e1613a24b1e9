//! The few points where the library touches the world outside its own logic:
//! fresh identifiers, the clock, and two small standard-library operations
//! that vstd gives no specification for. Each wrapper holds exactly one
//! outside call; everything that can be reasoned about is stated in its
//! contract, and nothing more.

use vstd::prelude::*;

verus! {

/// Relies on uuid::Uuid::new_v4 (via as_u128): a freshly drawn random
/// identifier. Randomness allows no promise about the value.
#[verifier::external_body]
pub(crate) fn fresh_uuid() -> u128 {
    uuid::Uuid::new_v4().as_u128()
}

/// Relies on chrono::Utc::now (via DateTime::timestamp_millis): the current
/// wall-clock time in milliseconds since the Unix epoch. The clock allows no
/// promise about the value.
#[verifier::external_body]
pub(crate) fn now_millis() -> i64 {
    chrono::Utc::now().timestamp_millis()
}

/// Relies on String::push: appends the given character to the end of the
/// string.
#[verifier::external_body]
pub(crate) fn push_char(s: &mut String, c: char)
    ensures
        final(s)@ == old(s)@.push(c),
{
    s.push(c);
}

} // verus!

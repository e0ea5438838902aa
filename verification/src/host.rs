//! Host facilities the store leans on: the clock and id generation.
//!
//! Both results depend on the machine or on chance, so neither wrapper
//! promises anything about the value that comes back; the verified callers
//! state what holds of every outcome.

use vstd::prelude::*;

verus! {

/// Relies on chrono's `Local::now`: the current local time, read from the
/// system clock, as a microsecond timestamp.
#[verifier::external_body]
pub fn now_timestamp() -> i64 {
    chrono::Local::now().timestamp_micros()
}

/// Relies on uuid's `Uuid::new_v4`: a freshly generated random identifier,
/// returned as its 128-bit value.
#[verifier::external_body]
pub fn generate_id() -> u128 {
    uuid::Uuid::new_v4().as_u128()
}

} // verus!

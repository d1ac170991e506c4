//! Trusted declarations for the pseudo-random generator and the clock.
//!
//! The simulator draws gate choices, entangling pairs and measurement draws
//! from a ChaCha stream cipher generator, and the benchmark record carries a
//! date and a runtime reading. Those come from outside crates; each call is
//! wrapped here with the little that can honestly be promised of it.

use vstd::prelude::*;
use chrono::Datelike;
use rand::Rng;
use rand::RngCore;
use rand::SeedableRng;

verus! {

/// The ChaCha-based pseudo-random generator type of `rand_chacha`, opaque to
/// verification.
#[verifier::external_type_specification]
#[verifier::external_body]
pub struct ExChaCha8Rng(rand_chacha::ChaCha8Rng);

/// A monotonic clock reading, opaque to verification.
#[verifier::external_type_specification]
#[verifier::external_body]
pub struct ExInstant(std::time::Instant);

/// Relies on `rand_chacha::ChaCha8Rng::seed_from_u64` (`rand_core::SeedableRng`):
/// builds a generator whose stream is a function of the 64-bit seed alone.
/// Nothing is claimed of the stream itself.
#[verifier::external_body]
pub(crate) fn rng_from_seed(seed: u64) -> rand_chacha::ChaCha8Rng {
    rand_chacha::ChaCha8Rng::seed_from_u64(seed)
}

/// Relies on `rand_chacha::ChaCha8Rng::from_entropy` (`rand_core::SeedableRng`):
/// builds a generator seeded from the operating system's entropy source.
#[verifier::external_body]
pub(crate) fn rng_from_entropy() -> rand_chacha::ChaCha8Rng {
    rand_chacha::ChaCha8Rng::from_entropy()
}

/// Relies on `rand::Rng::gen_range`: returns a value uniform in
/// `[0, bound)`, and panics only on an empty range, which the precondition
/// rules out. Which value comes back is not claimed.
#[verifier::external_body]
pub(crate) fn rng_below(rng: &mut rand_chacha::ChaCha8Rng, bound: u32) -> (r: u32)
    requires
        bound >= 1,
    ensures
        r < bound,
{
    rng.gen_range(0..bound)
}

/// Relies on `rand_core::RngCore::next_u32`: returns the next 32 bits of the
/// stream. Any value may come back.
#[verifier::external_body]
pub(crate) fn rng_next_u32(rng: &mut rand_chacha::ChaCha8Rng) -> u32 {
    rng.next_u32()
}

/// Relies on `std::time::Instant::now`: a reading of the monotonic clock.
#[verifier::external_body]
pub(crate) fn instant_now() -> std::time::Instant {
    std::time::Instant::now()
}

/// Relies on `std::time::Instant::elapsed` and
/// `std::time::Duration::as_millis`: the whole milliseconds since the
/// reading was taken, saturated into 64 bits. The clock decides the value.
#[verifier::external_body]
pub(crate) fn elapsed_ms(start: &std::time::Instant) -> u64 {
    let ms = start.elapsed().as_millis();
    if ms > u64::MAX as u128 {
        u64::MAX
    } else {
        ms as u64
    }
}

/// Relies on `chrono::Utc::now` and `chrono::Datelike`: the current UTC
/// date as plain year, month and day. The system clock decides the year;
/// `Datelike` documents that the month ranges over `1..=12` and the day of
/// month over `1..=31`.
#[verifier::external_body]
pub(crate) fn utc_today() -> (r: (i32, u32, u32))
    ensures
        1 <= r.1 <= 12,
        1 <= r.2 <= 31,
{
    let today = chrono::Utc::now().date_naive();
    (today.year(), today.month(), today.day())
}

} // verus!

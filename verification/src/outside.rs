//! The calls that leave the library: random numbers, timing, and the byte order of the machine.
//!
//! Every function here hands its arguments to code that is not verified, and its contract is
//! what the rest of the library relies on.
use crate::byte_order::ByteOrder;
use rand::Rng;
use solana_measure::measure::Measure;
use vstd::prelude::*;

verus! {

/// `std::path::PathBuf`, a directory on which a storage may be kept. It is only carried along.
#[verifier::external_type_specification]
#[verifier::external_body]
pub struct ExPathBuf(std::path::PathBuf);

/// `solana_measure::measure::Measure`, a stop watch.
#[verifier::external_type_specification]
#[verifier::external_body]
pub struct ExMeasure(solana_measure::measure::Measure);

/// Calls `rand::Rng::gen` on `rand::thread_rng()`. Every `u64` may come back, so nothing is
/// claimed of the result.
#[verifier::external_body]
pub(crate) fn random_u64() -> (random: u64)
{
    rand::thread_rng().gen()
}

/// Calls `rand::Rng::gen_range` on `rand::thread_rng()` with the bounds 0 and `bound`, which
/// panics where the first is not below the second. Claimed: the result is below `bound`.
#[verifier::external_body]
pub(crate) fn random_below(bound: u64) -> (random: u64)
    requires
        0 < bound,
    ensures
        random < bound,
{
    rand::thread_rng().gen_range(0, bound)
}

/// Calls `Measure::start`, which reads the clock. Nothing is claimed of the result.
#[verifier::external_body]
pub(crate) fn start_measure(name: &'static str) -> (measure: Measure)
{
    Measure::start(name)
}

/// Calls `Measure::stop`, which reads the clock. Nothing is claimed of the measure afterwards.
#[verifier::external_body]
pub(crate) fn stop_measure(measure: &mut Measure)
{
    measure.stop()
}

/// Calls `Measure::as_us`. The elapsed time may be anything, so nothing is claimed of the result.
#[verifier::external_body]
pub(crate) fn measured_us(measure: &Measure) -> (us: u64)
{
    measure.as_us()
}

/// Calls `u64::to_ne_bytes`, which gives the bytes of `number` in the order of the machine: as
/// `u64::to_le_bytes` does, or as `u64::to_be_bytes`. Claimed: it is one of the two. Which one is
/// left unsaid, since the machine decides.
#[verifier::external_body]
pub(crate) fn native_bytes(number: u64) -> (bytes: [u8; 8])
    ensures
        bytes@ == ByteOrder::Little.bytes(number) || bytes@ == ByteOrder::Big.bytes(number),
{
    number.to_ne_bytes()
}

} // verus!

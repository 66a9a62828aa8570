//! Tower heights: each insert draws one from a geometric distribution.

use vstd::prelude::*;
use crate::codec::{HEIGHT_INCREASE, MAX_HEIGHT};

verus! {

/// The generator of the `rand` crate that a map keeps for its draws.
#[verifier::external_type_specification]
#[verifier::external_body]
pub struct ExStdRng(rand::rngs::StdRng);

/// `SeedableRng::seed_from_u64` for `StdRng`: a generator made from a seed.
/// Nothing is claimed of it.
#[verifier::external_body]
pub(crate) fn rng_from_seed(seed: u64) -> (rng: rand::rngs::StdRng) {
    rand::SeedableRng::seed_from_u64(seed)
}

/// `RngCore::try_fill_bytes` of `rand::rngs::OsRng`: eight bytes from the
/// entropy source of the system, as a number; `None` if the system supplies
/// none. Nothing is claimed of the number.
#[verifier::external_body]
pub(crate) fn os_seed() -> (seed: Option<u64>) {
    let mut bytes = [0u8; 8];
    match rand::RngCore::try_fill_bytes(&mut rand::rngs::OsRng, &mut bytes) {
        Ok(()) => Some(u64::from_le_bytes(bytes)),
        Err(_) => None,
    }
}

/// The seed that a map takes when none is given and the system supplies
/// none.
pub const FALLBACK_SEED: u64 = 0;

/// The generator of a new map: made from `seed` if there is one, else from
/// a seed that the system supplies, else from the fallback seed.
pub(crate) fn make_rng(seed: Option<u64>) -> (rng: rand::rngs::StdRng) {
    let chosen: u64 = match seed {
        Some(s) => s,
        None => match os_seed() {
            Some(s) => s,
            None => FALLBACK_SEED,
        },
    };
    rng_from_seed(chosen)
}

/// `RngCore::next_u32` for `StdRng`: the next 32-bit draw. Nothing is claimed
/// of the number.
#[verifier::external_body]
pub(crate) fn rng_next_u32(rng: &mut rand::rngs::StdRng) -> (draw: u32) {
    rand::RngCore::next_u32(rng)
}

/// Whether a draw lets the tower grow by one more level.
pub open spec fn spec_grows(draw: u32) -> bool {
    draw < HEIGHT_INCREASE
}

/// Whether a draw lets the tower grow by one more level: about one draw in
/// three does.
pub fn grows(draw: u32) -> (b: bool)
    ensures
        b == spec_grows(draw),
{
    draw < HEIGHT_INCREASE
}

/// Samples a tower height: starting at 1, the height grows by one for each
/// draw that lets it, until a draw does not or `max_height` is reached.
pub fn random_height(rng: &mut rand::rngs::StdRng, max_height: u8) -> (h: u8)
    requires
        1 <= max_height <= MAX_HEIGHT,
    ensures
        1 <= h <= max_height,
{
    let mut h: u8 = 1;
    while h < max_height
        invariant
            1 <= h <= max_height,
        decreases max_height - h,
    {
        let draw: u32 = rng_next_u32(rng);
        if !grows(draw) {
            break;
        }
        h = h + 1;
    }
    h
}

} // verus!

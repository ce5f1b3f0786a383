//! Rounding of decimal amounts.
use vstd::prelude::*;
use crate::dec::{Dec, rounded};

verus! {

/// Rounds to the given number of decimal places, half to even.
pub fn round_d128_generalized(to_round: &Dec, places_past_decimal: u32) -> (r: Dec)
    ensures
        r == rounded(*to_round, places_past_decimal as nat),
{
    to_round.round_dp(places_past_decimal)
}

/// Rounds to 2 decimal places (cents), half to even.
pub fn round_d128_1e2(to_round: &Dec) -> (r: Dec)
    ensures
        r == rounded(*to_round, 2),
{
    to_round.round_dp(2)
}

/// Rounds to 8 decimal places, half to even.
pub fn round_d128_1e8(to_round: &Dec) -> (r: Dec)
    ensures
        r == rounded(*to_round, 8),
{
    to_round.round_dp(8)
}

} // verus!

//! The weight of an edge that joins a street to another street, taken from how
//! many lights the other street has.

use crate::types::Walkable;
use vstd::prelude::*;

verus! {

/// The weight of a street without lights.
pub const DEFAULT_SCORE: u32 = 1;

/// The largest weight.
pub const MAX_SCORE: u32 = 10;

/// What twice the number of lights is divided by.
pub const SCALING_FACTOR: u32 = 60;

/// What the number of lights is multiplied by.
pub const MULTIPLYER: u32 = 2;

/// The weight for a street with `lights` lights: 1 without lights, else
/// `lights * 2 / 60` rounded to the nearest whole number (a half rounds up),
/// and at most 10.
pub open spec fn rating(lights: nat) -> u32 {
    if lights == 0 {
        1
    } else if (lights * 2 + 30) / 60 > 10 {
        10
    } else {
        ((lights * 2 + 30) / 60) as u32
    }
}

/// The weight of an edge towards `intersecting_sidewalk`. A lower weight marks
/// the more desirable street when the weight is used as a cost.
pub fn assign_rating(intersecting_sidewalk: &Walkable) -> (weight: u32)
    ensures
        weight == rating(intersecting_sidewalk.lights@.len()),
        weight <= MAX_SCORE,
{
    let count: usize = intersecting_sidewalk.lights.len();
    if count == 0 {
        DEFAULT_SCORE
    } else if count >= 315 {
        MAX_SCORE
    } else {
        let raw_rating: u32 = count as u32 * MULTIPLYER;
        let rounded: u32 = (raw_rating + SCALING_FACTOR / 2) / SCALING_FACTOR;
        if rounded > MAX_SCORE {
            MAX_SCORE
        } else {
            rounded
        }
    }
}

} // verus!

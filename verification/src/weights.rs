//! The ergonomic model: every bonus and penalty that scoring applies.

use vstd::prelude::*;

verus! {

/// Largest magnitude of a bonus or penalty that is applied once per occurrence.
pub const MAX_WEIGHT: i64 = 10_000;

/// Largest magnitude of the penalty that is applied once per letter, whatever its count.
pub const MAX_FLAT_PENALTY: i64 = 1_000_000_000_000;

/// The bonuses and penalties of one ergonomic model. A bonus is positive, a
/// penalty negative; all but `bottom_right_penalty` are multiplied by the
/// count of the letters they apply to.
#[derive(Clone, Copy, Debug)]
pub struct Weights {
    pub single_top: i64,
    pub single_middle: i64,
    pub single_bottom: i64,
    pub double_top_inward: i64,
    pub double_top_outward: i64,
    pub double_middle_inward: i64,
    pub double_middle_outward: i64,
    pub triple_top_inward: i64,
    pub triple_top_outward: i64,
    pub triple_middle_inward: i64,
    pub triple_middle_outward: i64,
    pub jroll_inward: i64,
    pub jroll_outward: i64,
    pub quadruple_top_inward: i64,
    pub quadruple_top_outward: i64,
    pub quadruple_middle_inward: i64,
    pub quadruple_middle_outward: i64,
    pub long_jroll_inward: i64,
    pub center_top_penalty: i64,
    pub center_middle_penalty: i64,
    pub center_bottom_penalty: i64,
    pub minor_finger_curl_penalty: i64,
    pub pinkie_penalty: i64,
    pub two_row_move_penalty: i64,
    pub same_finger_penalty: i64,
    /// Charged once for each counted letter in the three rightmost cells of
    /// the bottom row.
    pub bottom_right_penalty: i64,
    /// Whether four-letter rolls take part in the score.
    pub use_quadruple_roll: bool,
}

/// A weight that scoring can multiply by a count.
pub open spec fn in_range(weight: i64) -> bool {
    -MAX_WEIGHT <= weight <= MAX_WEIGHT
}

impl Weights {
    /// Every weight is small enough for a score to fit its integer.
    pub open spec fn valid(&self) -> bool {
        &&& in_range(self.single_top)
        &&& in_range(self.single_middle)
        &&& in_range(self.single_bottom)
        &&& in_range(self.double_top_inward)
        &&& in_range(self.double_top_outward)
        &&& in_range(self.double_middle_inward)
        &&& in_range(self.double_middle_outward)
        &&& in_range(self.triple_top_inward)
        &&& in_range(self.triple_top_outward)
        &&& in_range(self.triple_middle_inward)
        &&& in_range(self.triple_middle_outward)
        &&& in_range(self.jroll_inward)
        &&& in_range(self.jroll_outward)
        &&& in_range(self.quadruple_top_inward)
        &&& in_range(self.quadruple_top_outward)
        &&& in_range(self.quadruple_middle_inward)
        &&& in_range(self.quadruple_middle_outward)
        &&& in_range(self.long_jroll_inward)
        &&& in_range(self.center_top_penalty)
        &&& in_range(self.center_middle_penalty)
        &&& in_range(self.center_bottom_penalty)
        &&& in_range(self.minor_finger_curl_penalty)
        &&& in_range(self.pinkie_penalty)
        &&& in_range(self.two_row_move_penalty)
        &&& in_range(self.same_finger_penalty)
        &&& -MAX_FLAT_PENALTY <= self.bottom_right_penalty <= MAX_FLAT_PENALTY
    }

    /// The standard model: only the middle row rewards a single letter, a
    /// roll of two letters counts twice as much on the middle row as on the
    /// top row, and the three rightmost cells of the bottom row are priced
    /// out of use.
    pub open spec fn standard_model() -> Weights {
        Weights {
            single_top: 0,
            single_middle: 3,
            single_bottom: 0,
            double_top_inward: 5,
            double_top_outward: 3,
            double_middle_inward: 10,
            double_middle_outward: 5,
            triple_top_inward: 35,
            triple_top_outward: 25,
            triple_middle_inward: 35,
            triple_middle_outward: 25,
            jroll_inward: 25,
            jroll_outward: 10,
            quadruple_top_inward: 20,
            quadruple_top_outward: 20,
            quadruple_middle_inward: 20,
            quadruple_middle_outward: 20,
            long_jroll_inward: 20,
            center_top_penalty: -10i64,
            center_middle_penalty: -10i64,
            center_bottom_penalty: -10i64,
            minor_finger_curl_penalty: -5i64,
            pinkie_penalty: -5i64,
            two_row_move_penalty: -10i64,
            same_finger_penalty: -5i64,
            bottom_right_penalty: -10_000_000i64,
            use_quadruple_roll: false,
        }
    }

    /// The standard model.
    pub fn standard() -> (weights: Weights)
        ensures
            weights == Weights::standard_model(),
            weights.valid(),
    {
        Weights {
            single_top: 0,
            single_middle: 3,
            single_bottom: 0,
            double_top_inward: 5,
            double_top_outward: 3,
            double_middle_inward: 10,
            double_middle_outward: 5,
            triple_top_inward: 35,
            triple_top_outward: 25,
            triple_middle_inward: 35,
            triple_middle_outward: 25,
            jroll_inward: 25,
            jroll_outward: 10,
            quadruple_top_inward: 20,
            quadruple_top_outward: 20,
            quadruple_middle_inward: 20,
            quadruple_middle_outward: 20,
            long_jroll_inward: 20,
            center_top_penalty: -10,
            center_middle_penalty: -10,
            center_bottom_penalty: -10,
            minor_finger_curl_penalty: -5,
            pinkie_penalty: -5,
            two_row_move_penalty: -10,
            same_finger_penalty: -5,
            bottom_right_penalty: -10_000_000,
            use_quadruple_roll: false,
        }
    }

    /// Tests that every weight is within its limit.
    pub fn is_valid(&self) -> (valid: bool)
        ensures
            valid == self.valid(),
    {
        weight_in_range(self.single_top) && weight_in_range(self.single_middle) && weight_in_range(
            self.single_bottom,
        ) && weight_in_range(self.double_top_inward) && weight_in_range(self.double_top_outward)
            && weight_in_range(self.double_middle_inward) && weight_in_range(
            self.double_middle_outward,
        ) && weight_in_range(self.triple_top_inward) && weight_in_range(self.triple_top_outward)
            && weight_in_range(self.triple_middle_inward) && weight_in_range(
            self.triple_middle_outward,
        ) && weight_in_range(self.jroll_inward) && weight_in_range(self.jroll_outward)
            && weight_in_range(self.quadruple_top_inward) && weight_in_range(
            self.quadruple_top_outward,
        ) && weight_in_range(self.quadruple_middle_inward) && weight_in_range(
            self.quadruple_middle_outward,
        ) && weight_in_range(self.long_jroll_inward) && weight_in_range(self.center_top_penalty)
            && weight_in_range(self.center_middle_penalty) && weight_in_range(
            self.center_bottom_penalty,
        ) && weight_in_range(self.minor_finger_curl_penalty) && weight_in_range(
            self.pinkie_penalty,
        ) && weight_in_range(self.two_row_move_penalty) && weight_in_range(
            self.same_finger_penalty,
        ) && -MAX_FLAT_PENALTY <= self.bottom_right_penalty && self.bottom_right_penalty
            <= MAX_FLAT_PENALTY
    }
}

fn weight_in_range(weight: i64) -> (yes: bool)
    ensures
        yes == in_range(weight),
{
    -MAX_WEIGHT <= weight && weight <= MAX_WEIGHT
}

} // verus!

//! Bedrock layers, how likely bedrock is at each height, and the blocks of a pattern.
use vstd::prelude::*;

verus! {

/// The two layers of a world that are made of bedrock in part.
#[derive(Clone, Copy, PartialEq, Eq, Debug, Structural)]
pub enum BedrockType {
    Floor,
    Roof,
}

impl BedrockType {
    /// The height at which this layer is always solid.
    pub open spec fn solid_height(self) -> int {
        match self {
            BedrockType::Floor => -64,
            BedrockType::Roof => 128,
        }
    }

    /// The height at which this layer is always air, at its other end.
    pub open spec fn far_height(self) -> int {
        match self {
            BedrockType::Floor => -59,
            BedrockType::Roof => 123,
        }
    }

    /// The height at which this layer is always solid. For the roof it lies above [`Self::max`].
    pub fn min(self) -> (y: i32)
        ensures
            y == self.solid_height(),
    {
        match self {
            BedrockType::Floor => -64,
            BedrockType::Roof => 128,
        }
    }

    /// The height at which this layer is always air. For the roof it lies below [`Self::min`].
    pub fn max(self) -> (y: i32)
        ensures
            y == self.far_height(),
    {
        match self {
            BedrockType::Floor => -59,
            BedrockType::Roof => 123,
        }
    }
}

/// A probability in fifths, the unit in which the likelihood of bedrock changes from one height to
/// the next. Values from 5 up mean "always", values from 0 down mean "never".
#[derive(Clone, Copy, PartialEq, Eq, Debug, Structural)]
pub struct Probability {
    pub fifths: i32,
}

/// How likely bedrock is at height `y` of a layer, in fifths. At the solid height it is 2. On the
/// air side of the far height it is -1. From the far height, where it is 0, it grows by one fifth
/// per block towards the solid height; below the floor it goes on growing, and above the roof it
/// falls from 0 by one fifth per block.
pub open spec fn probability_fifths(y: int, bt: BedrockType) -> int {
    match bt {
        BedrockType::Floor => if y == bt.solid_height() {
            10
        } else if y > bt.far_height() {
            -5
        } else {
            bt.far_height() - y
        },
        BedrockType::Roof => if y == bt.solid_height() {
            10
        } else if y < bt.far_height() {
            -5
        } else if y < bt.solid_height() {
            y - bt.far_height()
        } else {
            bt.solid_height() - y
        },
    }
}

/// How likely bedrock is at height `y` of a layer.
pub fn compute_probability(y: i32, bt: BedrockType) -> (p: Probability)
    ensures
        p.fifths == probability_fifths(y as int, bt),
{
    let min: i32 = bt.min();
    let max: i32 = bt.max();
    let fifths: i32 = match bt {
        BedrockType::Floor => {
            if y == min {
                10
            } else if y > max {
                -5
            } else {
                max - y
            }
        },
        BedrockType::Roof => {
            if y == min {
                10
            } else if y < max {
                -5
            } else if y < min {
                y - max
            } else {
                min - y
            }
        },
    };
    Probability { fifths }
}

/// The number that stands for a probability of `fifths / 5` on the scale of 24-bit random numbers:
/// the integer part of `fifths / 5 * 2^24`.
pub open spec fn threshold_of(fifths: int) -> int {
    fifths * 0x100_0000 / 5
}

/// The integer threshold of a probability. A position holds bedrock when its 24-bit random number
/// lies below the threshold.
pub fn prob_to_threshold(probability: Probability) -> (t: u64)
    requires
        0 < probability.fifths < 5,
    ensures
        t == threshold_of(probability.fifths as int),
        0 < t < 0x100_0000,
{
    probability.fifths as u64 * 0x100_0000 / 5
}

/// A probability limited to the range from 0 to 1, in fifths.
pub open spec fn clamped_fifths(fifths: int) -> int {
    if fifths < 0 {
        0
    } else if fifths > 5 {
        5
    } else {
        fifths
    }
}

/// Limits a probability to the range from 0 to 1.
pub fn clamp01(p: Probability) -> (r: Probability)
    ensures
        r.fifths == clamped_fifths(p.fifths as int),
{
    if p.fifths < 0 {
        Probability { fifths: 0 }
    } else if p.fifths > 5 {
        Probability { fifths: 5 }
    } else {
        p
    }
}

/// One constraint of a pattern: at the offset `(x, z)` from the pattern's position and at height
/// `y` there must be bedrock, or there must be none.
#[derive(Clone, Copy, PartialEq, Eq, Debug, Structural)]
pub struct Block {
    pub x: i32,
    pub y: i32,
    pub z: i32,
    pub should_be_bedrock: bool,
    pub probability: Probability,
    /// The threshold of `probability`, see [`prob_to_threshold`].
    pub prob_threshold: u64,
}

/// The four heights of a layer at which bedrock is neither certain nor impossible, the one with the
/// most air first.
pub open spec fn layer_heights(bt: BedrockType) -> Seq<int> {
    match bt {
        BedrockType::Floor => seq![-60, -61, -62, -63],
        BedrockType::Roof => seq![124, 125, 126, 127],
    }
}

/// The four heights of a layer at which bedrock is neither certain nor impossible.
pub fn y_values(bt: BedrockType) -> (ys: [i32; 4])
    ensures
        forall|i: int| 0 <= i < 4 ==> #[trigger] ys[i] == layer_heights(bt)[i],
{
    match bt {
        BedrockType::Floor => [-60, -61, -62, -63],
        BedrockType::Roof => [124, 125, 126, 127],
    }
}

/// Bedrock is certain at the solid height of a layer, and impossible at the far height and on the
/// air side of it.
pub proof fn law_certain_heights(y: int, bt: BedrockType)
    ensures
        y == bt.solid_height() ==> probability_fifths(y, bt) >= 5,
        bt is Floor && y >= bt.far_height() ==> probability_fifths(y, bt) <= 0,
        bt is Roof && y <= bt.far_height() ==> probability_fifths(y, bt) <= 0,
{
}

/// The four heights offered for a layer are exactly those at which the probability of bedrock lies
/// strictly between 0 and 1.
pub proof fn law_layer_heights_are_uncertain(y: int, bt: BedrockType)
    ensures
        layer_heights(bt).contains(y) <==> 0 < probability_fifths(y, bt) < 5,
{
    let ys = layer_heights(bt);
    assert(ys.len() == 4);
    if 0 < probability_fifths(y, bt) < 5 {
        match bt {
            BedrockType::Floor => {
                assert(ys[-60 - y] == y);
            },
            BedrockType::Roof => {
                assert(ys[y - 124] == y);
            },
        }
    }
}

/// The four heights of a layer run from the one with the least bedrock to the one with the most.
pub proof fn law_heights_most_air_first(bt: BedrockType, i: int, j: int)
    requires
        0 <= i < j < 4,
    ensures
        probability_fifths(layer_heights(bt)[i], bt) < probability_fifths(layer_heights(bt)[j], bt),
{
}

/// Comparing a 24-bit random number with the threshold decides as comparing the fraction
/// `top24 / 2^24` with the probability does, except where the number equals the threshold.
pub proof fn law_threshold_decides_as_probability(top24: int, fifths: int)
    requires
        0 < fifths < 5,
        0 <= top24 < 0x100_0000,
        top24 != threshold_of(fifths),
    ensures
        top24 < threshold_of(fifths) <==> 5 * top24 < fifths * 0x100_0000,
{
}

/// How likely bedrock is, height by height. The floor is solid at -64 and below; from there up to
/// -59, where there is none, its likelihood falls by a fifth per block, and above there is none.
/// The roof is the floor upside down, from 128 down to 123; above it there is no bedrock.
pub proof fn law_likelihood_by_height(y: int, bt: BedrockType)
    ensures
        bt is Floor && y == -64 ==> probability_fifths(y, bt) == 10,
        bt is Floor && y != -64 && y <= -59 ==> probability_fifths(y, bt) + y == -59,
        bt is Floor && y > -59 ==> probability_fifths(y, bt) == -5,
        bt is Roof && y < 123 ==> probability_fifths(y, bt) == -5,
        bt is Roof && 123 <= y < 128 ==> probability_fifths(y, bt) == y - 123,
        bt is Roof && y == 128 ==> probability_fifths(y, bt) == 10,
        bt is Roof && y > 128 ==> probability_fifths(y, bt) + y == 128,
{
}

/// From its solid height on to the air side the roof is the mirror image of the floor.
pub proof fn law_roof_mirrors_floor(y: int)
    requires
        -64 <= y,
    ensures
        probability_fifths(y, BedrockType::Floor) == probability_fifths(64 - y, BedrockType::Roof),
{
}

/// One step away from the solid height makes bedrock one fifth less likely, as long as it is
/// neither certain nor impossible there.
pub proof fn law_likelihood_falls_by_a_fifth(y: int)
    requires
        -64 < y < -59,
    ensures
        probability_fifths(y + 1, BedrockType::Floor) == probability_fifths(y, BedrockType::Floor)
            - 1,
        probability_fifths(63 - y, BedrockType::Roof) == probability_fifths(
            64 - y,
            BedrockType::Roof,
        ) - 1,
        0 < probability_fifths(y, BedrockType::Floor) < 5,
{
}

/// The threshold is the largest number that is no larger than the likelihood on the scale of the
/// 24-bit numbers.
pub proof fn law_threshold_is_rounded_down(fifths: int)
    ensures
        5 * threshold_of(fifths) <= fifths * 0x100_0000 < 5 * (threshold_of(fifths) + 1),
{
}

/// Limiting a likelihood gives the nearest one between impossible and certain.
pub proof fn law_limited_likelihood_is_nearest(fifths: int, other: int)
    requires
        0 <= other <= 5,
    ensures
        0 <= clamped_fifths(fifths) <= 5,
        fifths <= clamped_fifths(fifths) <= other || other <= clamped_fifths(fifths) <= fifths
            || clamped_fifths(fifths) == fifths,
{
}

/// The heights that are offered for the floor run down from -60, and those for the roof up from
/// 124.
pub proof fn law_heights_are_consecutive(i: int)
    requires
        0 <= i < 4,
    ensures
        layer_heights(BedrockType::Floor).len() == 4,
        layer_heights(BedrockType::Roof).len() == 4,
        layer_heights(BedrockType::Floor)[i] == -60 - i,
        layer_heights(BedrockType::Roof)[i] == 124 + i,
        probability_fifths(layer_heights(BedrockType::Floor)[i], BedrockType::Floor) == i + 1,
        probability_fifths(layer_heights(BedrockType::Roof)[i], BedrockType::Roof) == i + 1,
{
}

/// The two ends of a layer: solid at the one that [`BedrockType::min`] gives, and five blocks from
/// there air at the one that [`BedrockType::max`] gives.
pub proof fn law_layer_ends(bt: BedrockType)
    ensures
        bt is Floor ==> bt.solid_height() == -64 && bt.far_height() == -59,
        bt is Roof ==> bt.solid_height() == 128 && bt.far_height() == 123,
        probability_fifths(bt.solid_height(), bt) >= 5,
        probability_fifths(bt.far_height(), bt) == 0,
{
}

} // verus!

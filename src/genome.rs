//! The genome as growth sees it, and its validation.
use vstd::prelude::*;

verus! {

/// One full turn, in the binary angle units used for yaw; also the scale of
/// leaf chances (a chance of `TURN` is a certainty).
pub const TURN: u64 = 4294967296;

/// The discrete parameters of a plant genome.
///
/// Real-valued genome fields that only position vertices are not held here;
/// the two that steer decisions are held in fixed point: `leaf_chance` is the
/// leaf density in units of 1/`TURN`, and `branch_sway` is the sway bound as a
/// binary angle (a fraction `branch_sway / TURN` of a full turn).
pub struct Shape {
    pub seed: Option<u64>,
    pub max_splits: usize,
    /// Least number of children sampled at a split (inclusive).
    pub branches_min: usize,
    /// Greatest number of children sampled at a split (inclusive).
    pub branches_max: usize,
    pub radial_segments: usize,
    pub segments_per_branch: usize,
    pub leaf_start: usize,
    pub leaf_chance: u64,
    pub branch_decay: usize,
    pub branch_sway: u32,
}

/// The real-valued genome fields that validation reads, each held as the
/// IEEE-754 bit pattern of an `f32`.
pub struct RealFields {
    pub starting_radius: u32,
    pub branch_length: u32,
    pub radius_sustain: u32,
    pub leaf_density: u32,
}

/// Why a genome was refused.
#[derive(Clone, Copy, Debug, PartialEq, Eq, Structural)]
pub enum ConfigError {
    TooFewRadialSegments,
    InvertedBranchRange,
    NoSegments,
    NonPositiveRadius,
    NonPositiveLength,
    SustainOutOfRange,
    NegativeLeafDensity,
}

/// Bit pattern of positive infinity.
pub const POS_INFINITY_BITS: u32 = 0x7f80_0000;

/// Bit pattern of `1.0`.
pub const ONE_BITS: u32 = 0x3f80_0000;

/// Bit pattern of `-0.0`.
pub const NEG_ZERO_BITS: u32 = 0x8000_0000;

/// The `f32` with these bits compares greater than zero: positive patterns
/// order like their values, and those above infinity are NaN.
pub open spec fn positive_bits(b: u32) -> bool {
    0 < b && b <= POS_INFINITY_BITS
}

/// The `f32` with these bits lies in `(0, 1]`.
pub open spec fn unit_bits(b: u32) -> bool {
    0 < b && b <= ONE_BITS
}

/// The `f32` with these bits compares greater than or equal to zero.
pub open spec fn non_negative_bits(b: u32) -> bool {
    b <= POS_INFINITY_BITS || b == NEG_ZERO_BITS
}

/// The first rule a genome breaks, in the order they are checked.
pub open spec fn config_problem(s: Shape, r: RealFields) -> Option<ConfigError> {
    if s.radial_segments < 3 {
        Some(ConfigError::TooFewRadialSegments)
    } else if s.branches_min > s.branches_max {
        Some(ConfigError::InvertedBranchRange)
    } else if s.segments_per_branch < 1 {
        Some(ConfigError::NoSegments)
    } else if !positive_bits(r.starting_radius) {
        Some(ConfigError::NonPositiveRadius)
    } else if !positive_bits(r.branch_length) {
        Some(ConfigError::NonPositiveLength)
    } else if !unit_bits(r.radius_sustain) {
        Some(ConfigError::SustainOutOfRange)
    } else if !non_negative_bits(r.leaf_density) {
        Some(ConfigError::NegativeLeafDensity)
    } else {
        None
    }
}

/// The discrete rules alone.
pub open spec fn shape_valid(s: Shape) -> bool {
    &&& s.radial_segments >= 3
    &&& s.branches_min <= s.branches_max
    &&& s.segments_per_branch >= 1
}

pub proof fn lemma_valid_shape(s: Shape, r: RealFields)
    requires
        config_problem(s, r).is_none(),
    ensures
        shape_valid(s),
{
}

/// Checks a genome before anything is grown from it.
pub fn validate(s: &Shape, r: &RealFields) -> (res: Result<(), ConfigError>)
    ensures
        res == (match config_problem(*s, *r) {
            None => Ok(()),
            Some(e) => Err(e),
        }),
{
    if s.radial_segments < 3 {
        Err(ConfigError::TooFewRadialSegments)
    } else if s.branches_min > s.branches_max {
        Err(ConfigError::InvertedBranchRange)
    } else if s.segments_per_branch < 1 {
        Err(ConfigError::NoSegments)
    } else if !(0 < r.starting_radius && r.starting_radius <= POS_INFINITY_BITS) {
        Err(ConfigError::NonPositiveRadius)
    } else if !(0 < r.branch_length && r.branch_length <= POS_INFINITY_BITS) {
        Err(ConfigError::NonPositiveLength)
    } else if !(0 < r.radius_sustain && r.radius_sustain <= ONE_BITS) {
        Err(ConfigError::SustainOutOfRange)
    } else if !(r.leaf_density <= POS_INFINITY_BITS || r.leaf_density == NEG_ZERO_BITS) {
        Err(ConfigError::NegativeLeafDensity)
    } else {
        Ok(())
    }
}

} // verus!

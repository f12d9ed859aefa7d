//! Parameters of a tracking pipeline.
use vstd::arithmetic::power2::{lemma2_to64, lemma_pow2_adds, lemma_pow2_pos, pow2};
use vstd::prelude::*;

use crate::binary32::{magnitude, Binary32};
use crate::grid::Grid;
use crate::precision::one;
use crate::pyramid::{level_count, pyramid};
use crate::rounding::units;

verus! {

pub const DEFAULT_PYRAMID_LEVELS: usize = 3;

pub const DEFAULT_WINDOW_SIZE: usize = 21;

pub const DEFAULT_MAX_ITERATIONS: usize = 30;

/// 0.4.
pub const DEFAULT_FEATURE_QUALITY_LEVEL: u32 = 0x3ecc_cccd;

pub const DEFAULT_FEATURE_MIN_DISTANCE: u32 = 10;

pub const DEFAULT_MAX_FEATURES: usize = 500;

/// Resolution and parameters of a pipeline.
#[derive(Clone, Copy, Debug)]
pub struct Settings {
    pub width: u32,
    pub height: u32,
    pub pyramid_levels: usize,
    pub window_size: usize,
    pub max_iterations: usize,
    pub feature_quality_level: Binary32,
    pub feature_min_distance: u32,
    pub max_features: usize,
}

/// The parameters that a pipeline has unless others are chosen.
pub open spec fn default_settings(width: u32, height: u32) -> Settings {
    Settings {
        width,
        height,
        pyramid_levels: DEFAULT_PYRAMID_LEVELS,
        window_size: DEFAULT_WINDOW_SIZE,
        max_iterations: DEFAULT_MAX_ITERATIONS,
        feature_quality_level: Binary32 { bits: DEFAULT_FEATURE_QUALITY_LEVEL },
        feature_min_distance: DEFAULT_FEATURE_MIN_DISTANCE,
        max_features: DEFAULT_MAX_FEATURES,
    }
}

impl Settings {
    /// A pipeline can be built: there are pixels and levels, the side of the
    /// window is odd, and all storage can be allocated.
    pub open spec fn is_buildable(self) -> bool {
        &&& self.width > 0
        &&& self.height > 0
        &&& self.pyramid_levels > 0
        &&& self.window_size % 2 == 1
        &&& 8 * (self.window_size * self.window_size) <= isize::MAX
        &&& 12 * (self.width * self.height) <= isize::MAX
        &&& 12 * self.max_features <= isize::MAX
    }

    /// The distance from the centre of the window to its side.
    pub open spec fn radius(self) -> int {
        self.window_size as int / 2
    }

    /// The pyramid of a frame of the resolution.
    pub open spec fn is_frame(self, levels: Seq<Grid<u8>>) -> bool {
        &&& levels.len() == level_count(
            self.width as int,
            self.height as int,
            self.pyramid_levels as nat,
        )
        &&& levels.len() > 0
        &&& levels[0].is_exact()
        &&& levels[0].width == self.width
        &&& levels[0].height == self.height
        &&& levels == pyramid(levels[0], levels.len())
    }

    pub fn new(width: u32, height: u32) -> (r: Settings)
        ensures
            r == default_settings(width, height),
    {
        Settings {
            width,
            height,
            pyramid_levels: DEFAULT_PYRAMID_LEVELS,
            window_size: DEFAULT_WINDOW_SIZE,
            max_iterations: DEFAULT_MAX_ITERATIONS,
            feature_quality_level: Binary32::from_bits(DEFAULT_FEATURE_QUALITY_LEVEL),
            feature_min_distance: DEFAULT_FEATURE_MIN_DISTANCE,
            max_features: DEFAULT_MAX_FEATURES,
        }
    }
}

/// The parameters that a pipeline has unless others are chosen: three levels, a
/// window of 21 pixels, 30 iterations, corners of 0.4 of the best score, at least
/// ten pixels apart, and 500 of them at most.
pub proof fn lemma_default_settings(width: u32, height: u32)
    ensures
        ({
            let s = default_settings(width, height);
            &&& s.width == width
            &&& s.height == height
            &&& s.pyramid_levels == 3
            &&& s.window_size == 21
            &&& s.radius() == 10
            &&& s.max_iterations == 30
            &&& s.feature_min_distance == 10
            &&& s.max_features == 500
            &&& s.feature_quality_level.is_finite()
            &&& 0x200_0000 * magnitude(5 * s.feature_quality_level.value() - 2 * one()) <= one()
        }),
{
    lemma2_to64();
    lemma_pow2_pos(124);
    let k: int = 0x3ecc_cccd;
    assert(k / 0x80_0000 == 125 && k % 0x80_0000 == 0x4c_cccd);
    lemma_pow2_adds(124, 25);
    assert(one() == 0x200_0000 * pow2(124)) by (nonlinear_arith)
        requires
            one() == pow2(124) * pow2(25),
            pow2(25) == 0x200_0000,
    ;
    assert(units(k) == 0xcc_cccd * pow2(124));
}

} // verus!

//! Tracked points.
use vstd::prelude::*;

use crate::binary32::{is_same_number, Binary32};

verus! {

/// A tracked feature point with spatial position and detection strength.
#[derive(Clone, Copy, Debug)]
pub struct Feature {
    /// Sub-pixel x coordinate in image space.
    pub x: Binary32,
    /// Sub-pixel y coordinate in image space.
    pub y: Binary32,
    /// Shi-Tomasi min-eigenvalue from detection. Tracked features preserve
    /// their input feature's `strength` unchanged.
    pub strength: Binary32,
}

impl PartialEq for Feature {
    /// Equality of the numbers in all fields.
    fn eq(&self, other: &Feature) -> (r: bool) {
        self.x == other.x && self.y == other.y && self.strength == other.strength
    }
}

impl vstd::std_specs::cmp::PartialEqSpecImpl for Feature {
    open spec fn obeys_eq_spec() -> bool {
        true
    }

    open spec fn eq_spec(&self, other: &Feature) -> bool {
        self.x.equals(other.x) && self.y.equals(other.y) && self.strength.equals(other.strength)
    }
}

/// A feature that stayed where it was.
pub open spec fn is_unmoved(from: Feature, to: Feature) -> bool {
    &&& is_same_number(from.x, to.x)
    &&& is_same_number(from.y, to.y)
    &&& to.strength == from.strength
}

} // verus!

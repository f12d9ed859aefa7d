//! Lucas-Kanade optical flow and Shi-Tomasi feature detection.
//!
//! Two layers:
//!
//! - [`OpticalFlowBuilder`] and [`OpticalFlowTracker`] are a pipeline that owns
//!   the pyramid rotation, the feature list and all scratch buffers;
//!   [`buffer`] holds one with a feature list per frame.
//! - [`buffers`] offers the buffers themselves, with free functions that
//!   operate on them, to assemble other pipelines.
//!
//! Positions and strengths are single-precision numbers, kept as bit patterns
//! ([`binary32`]).

pub mod binary32;
pub mod buffer;
pub mod buffers;
pub mod corners;
pub mod error;
pub mod feature;
pub mod features;
pub mod flat;
pub mod generic;
pub mod grid;
pub mod lk;
pub mod motion;
pub mod precision;
pub mod pyramid;
pub mod raster;
pub mod round_trip;
pub mod rounding;
pub mod settings;
pub mod spacing;
pub mod still;
pub mod tracker;
pub mod utils;
pub mod validate;

pub use error::{LayoutError, TrackError};
pub use feature::Feature;
pub use features::good_features_to_track;
pub use flat::{FlatSamples, SampleLayout};
pub use lk::calc_optical_flow;
pub use pyramid::build_pyramid;
pub use tracker::{OpticalFlowBuilder, OpticalFlowTracker};

//! Steady-state tracking pipeline with a feature list per frame.
//!
//! [`OpticalFlowBuilder`] gathers the global parameters and resolution for the
//! pipeline. [`OpticalFlowBuilder::build`] returns an [`OpticalFlowBuffer`]
//! with its internal buffers allocated.
use vstd::prelude::*;

use crate::binary32::{of_int, Binary32};
use crate::buffers::{detect_features, track};
use crate::corners::{
    are_apart, is_corner, is_feature_at, is_on_corner, lemma_detected, lemma_nothing_missed,
};
use crate::error::TrackError;
use crate::feature::{is_unmoved, Feature};
use crate::features::{is_detection, lemma_detection_determined, score, FeaturesBuffer};
use crate::flat::{is_same_image, lemma_same_image, FlatSamples};
use crate::grid::Grid;
use crate::lk::{flow_point, moved_all, LkBuffer};
use crate::pyramid::{lemma_level_count, level_count, pyramid, PyramidBuffer};
use crate::raster::uniform;
use crate::settings::{default_settings, Settings};
use crate::still::lemma_frame_still;
use crate::validate::{frame_verdict, validate_frame};

verus! {

/// Pyramid of a frame plus the features associated with that frame.
///
/// The features start empty after construction or after a `push_frame`
/// rotation; they come from `detect_features` or `calculate_flow`.
pub(crate) struct FrameBuffer {
    pyramid: PyramidBuffer,
    features: Vec<Feature>,
}

/// A frame's pyramid and features.
#[verifier::ext_equal]
pub struct FrameState {
    pub pyramid: Seq<Grid<u8>>,
    pub features: Seq<Feature>,
}

/// A black frame without features.
pub open spec fn empty_frame(settings: Settings) -> FrameState {
    FrameState {
        pyramid: pyramid(
            uniform(settings.width as int, settings.height as int, 0u8),
            level_count(
                settings.width as int,
                settings.height as int,
                settings.pyramid_levels as nat,
            ),
        ),
        features: Seq::empty(),
    }
}

impl FrameBuffer {
    spec fn state(&self) -> FrameState {
        FrameState { pyramid: self.pyramid@, features: self.features@ }
    }

    /// The pyramid has the given resolution.
    spec fn fits(&self, settings: Settings) -> bool {
        &&& self.pyramid.well_formed()
        &&& settings.is_frame(self.pyramid@)
    }

    fn with_capacity(settings: &Settings) -> (r: FrameBuffer)
        requires
            settings.is_buildable(),
        ensures
            r.state() == empty_frame(*settings),
            r.fits(*settings),
    {
        proof {
            lemma_level_count(
                settings.width as int,
                settings.height as int,
                settings.pyramid_levels as nat,
            );
        }
        FrameBuffer {
            pyramid: PyramidBuffer::with_capacity(
                settings.width,
                settings.height,
                settings.pyramid_levels,
            ),
            features: Vec::with_capacity(settings.max_features),
        }
    }
}

/// Builder for [`OpticalFlowBuffer`].
pub struct OpticalFlowBuilder {
    settings: Settings,
}

impl View for OpticalFlowBuilder {
    type V = Settings;

    closed spec fn view(&self) -> Settings {
        self.settings
    }
}

impl OpticalFlowBuilder {
    /// Start a builder for a fixed-resolution pipeline.
    ///
    /// Defaults: 3 pyramid levels, 21x21 window, 30 max iterations,
    /// `quality_level = 0.4`, `min_distance = 10`, `max_features = 500`.
    pub fn new(width: u32, height: u32) -> (r: OpticalFlowBuilder)
        ensures
            r@ == default_settings(width, height),
    {
        OpticalFlowBuilder { settings: Settings::new(width, height) }
    }

    /// Number of pyramid levels. Level 0 is full resolution; each subsequent
    /// level halves both dimensions. Must be > 0.
    pub fn pyramid_levels(self, levels: usize) -> (r: OpticalFlowBuilder)
        ensures
            r@ == (Settings { pyramid_levels: levels, ..self@ }),
    {
        OpticalFlowBuilder { settings: Settings { pyramid_levels: levels, ..self.settings } }
    }

    /// Side length of the Lucas-Kanade search window, in pixels. Must be odd.
    pub fn window_size(self, size: usize) -> (r: OpticalFlowBuilder)
        ensures
            r@ == (Settings { window_size: size, ..self@ }),
    {
        OpticalFlowBuilder { settings: Settings { window_size: size, ..self.settings } }
    }

    /// Maximum refinement iterations per pyramid level.
    pub fn max_iterations(self, n: usize) -> (r: OpticalFlowBuilder)
        ensures
            r@ == (Settings { max_iterations: n, ..self@ }),
    {
        OpticalFlowBuilder { settings: Settings { max_iterations: n, ..self.settings } }
    }

    /// Shi-Tomasi quality threshold, as a fraction of the strongest corner's
    /// score in each frame.
    pub fn feature_quality_level(self, q: Binary32) -> (r: OpticalFlowBuilder)
        ensures
            r@ == (Settings { feature_quality_level: q, ..self@ }),
    {
        OpticalFlowBuilder { settings: Settings { feature_quality_level: q, ..self.settings } }
    }

    /// Minimum spatial separation between accepted features, in pixels.
    pub fn feature_min_distance(self, d: u32) -> (r: OpticalFlowBuilder)
        ensures
            r@ == (Settings { feature_min_distance: d, ..self@ }),
    {
        OpticalFlowBuilder { settings: Settings { feature_min_distance: d, ..self.settings } }
    }

    /// Hard upper bound on the number of features that are detected.
    pub fn max_features(self, n: usize) -> (r: OpticalFlowBuilder)
        ensures
            r@ == (Settings { max_features: n, ..self@ }),
    {
        OpticalFlowBuilder { settings: Settings { max_features: n, ..self.settings } }
    }

    /// Construct the buffer, pre-allocating its storage.
    pub fn build(self) -> (r: OpticalFlowBuffer)
        requires
            self@.is_buildable(),
        ensures
            r.well_formed(),
            r@ == initial_buffer(self@),
    {
        let s: Settings = self.settings;
        let prev_frame: FrameBuffer = FrameBuffer::with_capacity(&s);
        let curr_frame: FrameBuffer = FrameBuffer::with_capacity(&s);
        let lk_buffer: LkBuffer = LkBuffer::with_capacity(
            s.width,
            s.height,
            s.pyramid_levels,
            s.window_size,
            s.max_features,
        );
        let features_buffer: FeaturesBuffer = FeaturesBuffer::with_capacity(
            s.width,
            s.height,
            s.feature_min_distance,
            s.max_features,
        );
        OpticalFlowBuffer {
            settings: s,
            prev_frame,
            curr_frame,
            lk_buffer,
            features_buffer,
            has_curr: false,
            has_prev: false,
        }
    }
}

/// What a pipeline knows.
#[verifier::ext_equal]
pub struct BufferState {
    pub settings: Settings,
    /// The frame before the last.
    pub previous: FrameState,
    /// The last frame.
    pub current: FrameState,
    pub has_previous: bool,
    pub has_current: bool,
}

/// A pipeline that has seen no frame.
pub open spec fn initial_buffer(settings: Settings) -> BufferState {
    BufferState {
        settings,
        previous: empty_frame(settings),
        current: empty_frame(settings),
        has_previous: false,
        has_current: false,
    }
}

/// A pipeline after one frame more, which has no features yet.
pub open spec fn rotated(s: BufferState, frame: Grid<u8>) -> BufferState {
    BufferState {
        previous: s.current,
        current: FrameState {
            pyramid: pyramid(frame, s.previous.pyramid.len()),
            features: Seq::empty(),
        },
        has_previous: s.has_previous || s.has_current,
        has_current: true,
        ..s
    }
}

/// A pipeline with other features for the last frame.
pub open spec fn with_current(s: BufferState, features: Seq<Feature>) -> BufferState {
    BufferState { current: FrameState { features, ..s.current }, ..s }
}

/// What a pipeline detects in the last frame.
pub open spec fn detects(s: BufferState, found: Seq<Feature>) -> bool {
    is_detection(
        found,
        s.current.pyramid[0],
        s.settings.feature_quality_level,
        s.settings.feature_min_distance,
        s.settings.max_features as int,
    )
}

/// A pipeline after the features of the previous frame have been followed into
/// the last.
pub open spec fn followed(s: BufferState) -> BufferState {
    with_current(
        s,
        moved_all(
            s.previous.pyramid,
            s.current.pyramid,
            s.settings.radius(),
            s.settings.max_iterations as int,
            s.previous.features,
        ),
    )
}

/// A pipeline can follow features once it has seen two frames, and not before;
/// the features of the first are then those of the previous frame.
pub proof fn lemma_two_rotations(
    settings: Settings,
    first: Grid<u8>,
    second: Grid<u8>,
    features: Seq<Feature>,
)
    ensures
        !rotated(initial_buffer(settings), first).has_previous,
        rotated(initial_buffer(settings), first).has_current,
        rotated(initial_buffer(settings), first).current.features.len() == 0,
        ({
            let one = with_current(rotated(initial_buffer(settings), first), features);
            let two = rotated(one, second);
            &&& two.has_previous
            &&& two.previous.features == features
            &&& two.previous.pyramid == pyramid(first, empty_frame(settings).pyramid.len())
            &&& two.current.pyramid == pyramid(second, empty_frame(settings).pyramid.len())
            &&& two.current.features.len() == 0
        }),
{
}

/// Two views of the same pixels cannot be told apart by a pipeline, whatever
/// the strides of their rows and the buffers behind them.
pub proof fn lemma_frames_are_alike(s: BufferState, a: FlatSamples<'_>, b: FlatSamples<'_>)
    requires
        is_same_image(a, b),
    ensures
        frame_verdict(a, s.settings.width, s.settings.height) == frame_verdict(
            b,
            s.settings.width,
            s.settings.height,
        ),
        rotated(s, a.grid()) == rotated(s, b.grid()),
        followed(rotated(s, a.grid())) == followed(rotated(s, b.grid())),
{
    lemma_same_image(a, b);
}

/// What a pipeline detects depends on its last frame and its settings alone.
pub proof fn lemma_detections_are_alike(
    s: BufferState,
    t: BufferState,
    a: Seq<Feature>,
    b: Seq<Feature>,
)
    requires
        s.settings == t.settings,
        s.settings.is_frame(s.current.pyramid),
        s.current.pyramid == t.current.pyramid,
        detects(s, a),
        detects(t, b),
    ensures
        a == b,
{
    lemma_detection_determined(
        a,
        b,
        s.current.pyramid[0],
        s.settings.feature_quality_level,
        s.settings.feature_min_distance,
        s.settings.max_features as int,
    );
}

/// What a pipeline detects follows its settings: no more features than
/// `max_features`, in descending order of strength, each on a corner of the last
/// frame with its score for strength, which reaches `feature_quality_level` of
/// the score of every corner, and every two of them apart by
/// `feature_min_distance` pixels.
pub proof fn lemma_pipeline_follows_settings(s: BufferState, found: Seq<Feature>)
    requires
        s.settings.is_frame(s.current.pyramid),
        s.settings.width <= 0x100_0000,
        s.settings.height <= 0x100_0000,
        s.settings.feature_quality_level.is_finite(),
        of_int(0).is_at_most(s.settings.feature_quality_level),
        detects(s, found),
    ensures
        found.len() <= s.settings.max_features,
        forall|i: int|
            0 <= i < found.len() ==> is_on_corner(#[trigger] found[i], s.current.pyramid[0]),
        forall|i: int, x: int, y: int|
            0 <= i < found.len() && #[trigger] is_corner(s.current.pyramid[0], x, y)
                ==> s.settings.feature_quality_level.product(
                score(s.current.pyramid[0], x, y),
            ).is_at_most((#[trigger] found[i]).strength),
        forall|i: int, j: int|
            0 <= i < j < found.len() ==> (#[trigger] found[j]).strength.is_at_most(
                (#[trigger] found[i]).strength,
            ),
        forall|i: int, j: int|
            0 <= i < j < found.len() ==> are_apart(
                #[trigger] found[i],
                #[trigger] found[j],
                s.settings.feature_min_distance,
            ),
{
    lemma_detected(
        found,
        s.current.pyramid[0],
        s.settings.feature_quality_level,
        s.settings.feature_min_distance,
        s.settings.max_features as int,
    );
}

/// A pipeline that detects fewer features than `max_features` leaves out no
/// corner but those of too low a score and those that are nearer than
/// `feature_min_distance` to a detected one.
pub proof fn lemma_pipeline_misses_nothing(s: BufferState, found: Seq<Feature>, x: int, y: int)
    requires
        s.settings.is_frame(s.current.pyramid),
        s.settings.feature_quality_level.is_finite(),
        of_int(0).is_at_most(s.settings.feature_quality_level),
        detects(s, found),
        found.len() < s.settings.max_features,
        is_corner(s.current.pyramid[0], x, y),
        of_int(0).is_at_most(score(s.current.pyramid[0], x, y)),
        forall|i: int, j: int| #[trigger]
            is_corner(s.current.pyramid[0], i, j) ==> s.settings.feature_quality_level.product(
                score(s.current.pyramid[0], i, j),
            ).is_at_most(score(s.current.pyramid[0], x, y)),
    ensures
        exists|i: int, px: int, py: int|
            0 <= i < found.len() && #[trigger] is_feature_at(found[i], px, py) && (px == x && py
                == y || (px - x) * (px - x) + (py - y) * (py - y) < s.settings.feature_min_distance
                * s.settings.feature_min_distance),
{
    lemma_nothing_missed(
        found,
        s.current.pyramid[0],
        s.settings.feature_quality_level,
        s.settings.feature_min_distance,
        s.settings.max_features as int,
        x,
        y,
    );
}

/// A pipeline follows features from the previous frame to the last with the
/// configured window and number of iterations, each to where it is alone.
pub proof fn lemma_follow_uses_settings(s: BufferState, i: int)
    requires
        0 <= i < s.previous.features.len(),
    ensures
        ({
            let f = s.previous.features[i];
            let to = flow_point(
                s.previous.pyramid,
                s.current.pyramid,
                s.settings.window_size as int / 2,
                s.settings.max_iterations as int,
                (f.x, f.y),
            );
            followed(s).current.features[i] == (Feature {
                x: to.0,
                y: to.1,
                strength: f.strength,
            })
        }),
{
}

/// A frame that is pushed becomes the last one, as it is and without features,
/// and the last one the previous, with its features.
pub proof fn lemma_rotated(s: BufferState, frame: Grid<u8>)
    requires
        s.previous.pyramid.len() > 0,
        s.has_previous ==> s.has_current,
    ensures
        rotated(s, frame).current.pyramid.len() == s.previous.pyramid.len(),
        rotated(s, frame).current.pyramid[0] == frame,
        rotated(s, frame).current.features.len() == 0,
        rotated(s, frame).previous == s.current,
        rotated(s, frame).settings == s.settings,
        rotated(s, frame).has_current,
        rotated(s, frame).has_previous == s.has_current,
{
}

/// A new pipeline has seen no frame and has no features.
pub proof fn lemma_initial_buffer(settings: Settings)
    requires
        settings.is_buildable(),
    ensures
        !initial_buffer(settings).has_current,
        !initial_buffer(settings).has_previous,
        initial_buffer(settings).current.features.len() == 0,
        initial_buffer(settings).previous.features.len() == 0,
        initial_buffer(settings).settings == settings,
        settings.is_frame(initial_buffer(settings).current.pyramid),
        settings.is_frame(initial_buffer(settings).previous.pyramid),
{
    let w = settings.width as int;
    let h = settings.height as int;
    assert(0 <= w * h) by (nonlinear_arith)
        requires
            0 <= w,
            0 <= h,
    ;
    lemma_level_count(w, h, settings.pyramid_levels as nat);
    assert(initial_buffer(settings).current.pyramid[0] == uniform(w, h, 0u8));
}

/// Following features leaves those of the previous frame as they are; the
/// last frame then has as many, with the same strengths.
pub proof fn lemma_follow_keeps(s: BufferState)
    ensures
        followed(s).previous == s.previous,
        followed(s).current.pyramid == s.current.pyramid,
        followed(s).current.features.len() == s.previous.features.len(),
        forall|i: int|
            0 <= i < s.previous.features.len() ==> (#[trigger] followed(
                s,
            ).current.features[i]).strength == s.previous.features[i].strength,
{
}

/// Between two frames that are the same no feature moves.
pub proof fn lemma_still_pipeline(s: BufferState, i: int)
    requires
        s.settings.is_buildable(),
        s.settings.width <= 0x8000_0000,
        s.settings.height <= 0x8000_0000,
        s.settings.is_frame(s.current.pyramid),
        s.previous.pyramid == s.current.pyramid,
        0 <= i < s.previous.features.len(),
    ensures
        is_unmoved(s.previous.features[i], followed(s).current.features[i]),
{
    lemma_frame_still(s.settings, s.current.pyramid, s.previous.features[i]);
}

/// Steady-state tracking pipeline.
///
/// Read access to detected and followed features goes through
/// [`current_features`](Self::current_features) and
/// [`previous_features`](Self::previous_features); configuration is exposed
/// through the remaining read-only accessors.
pub struct OpticalFlowBuffer {
    settings: Settings,
    prev_frame: FrameBuffer,
    curr_frame: FrameBuffer,
    lk_buffer: LkBuffer,
    features_buffer: FeaturesBuffer,
    has_curr: bool,
    has_prev: bool,
}

impl View for OpticalFlowBuffer {
    type V = BufferState;

    closed spec fn view(&self) -> BufferState {
        BufferState {
            settings: self.settings,
            previous: self.prev_frame.state(),
            current: self.curr_frame.state(),
            has_previous: self.has_prev,
            has_current: self.has_curr,
        }
    }
}

impl OpticalFlowBuffer {
    /// The buffers fit the settings, and a previous frame comes before a current
    /// one.
    pub closed spec fn well_formed(&self) -> bool {
        &&& self.settings.is_buildable()
        &&& self.prev_frame.fits(self.settings)
        &&& self.curr_frame.fits(self.settings)
        &&& self.lk_buffer.well_formed()
        &&& self.lk_buffer.radius() == self.settings.radius()
        &&& self.features_buffer.well_formed()
        &&& self.has_prev ==> self.has_curr
    }

    /// The two pyramids are those of frames of the configured resolution, and
    /// there is no previous frame without a current one.
    pub proof fn lemma_frames(&self)
        requires
            self.well_formed(),
        ensures
            self@.settings.is_buildable(),
            self@.settings.is_frame(self@.previous.pyramid),
            self@.settings.is_frame(self@.current.pyramid),
            self@.has_previous ==> self@.has_current,
    {
    }

    /// Rotate the frames and build the pyramid of the new one, which has no
    /// features yet. A frame that is refused leaves everything as it is.
    pub fn push_frame(&mut self, image: &FlatSamples<'_>) -> (r: Result<(), TrackError>)
        requires
            old(self).well_formed(),
        ensures
            final(self).well_formed(),
            r == frame_verdict(*image, old(self)@.settings.width, old(self)@.settings.height),
            r is Ok ==> final(self)@ == rotated(old(self)@, image.grid()),
            r is Ok ==> final(self)@.has_current,
            r is Ok ==> final(self)@.has_previous == old(self)@.has_current,
            r is Err ==> final(self)@ == old(self)@,
    {
        match validate_frame(image, self.settings.width, self.settings.height) {
            Err(err) => Err(err),
            Ok(()) => {
                std::mem::swap(&mut self.prev_frame, &mut self.curr_frame);
                self.curr_frame.pyramid.build_into(image);
                self.curr_frame.features.clear();
                if self.has_curr {
                    self.has_prev = true;
                }
                self.has_curr = true;
                Ok(())
            },
        }
    }

    /// Detect Shi-Tomasi corner features on the current frame, up to
    /// [`max_features`](Self::max_features), in descending quality order.
    ///
    /// Errors [`TrackError::NoCurrentFrame`] if no frame has been pushed.
    pub fn detect_features(&mut self) -> (r: Result<(), TrackError>)
        requires
            old(self).well_formed(),
        ensures
            final(self).well_formed(),
            r is Err <==> !old(self)@.has_current,
            r matches Err(err) ==> err == TrackError::NoCurrentFrame,
            r is Err ==> final(self)@ == old(self)@,
            old(self)@.settings.is_frame(old(self)@.current.pyramid),
            r is Ok ==> detects(old(self)@, final(self)@.current.features),
            final(self)@ == with_current(old(self)@, final(self)@.current.features),
    {
        if !self.has_curr {
            return Err(TrackError::NoCurrentFrame);
        }
        detect_features(
            &mut self.features_buffer,
            &self.curr_frame.pyramid,
            self.settings.feature_quality_level,
            self.settings.feature_min_distance,
            self.settings.max_features,
            &mut self.curr_frame.features,
        );
        Ok(())
    }

    /// Follow the features of the previous frame into the current frame using
    /// Lucas-Kanade. The result replaces the features of the current frame.
    /// Strength is preserved from each input feature. Errors
    /// [`TrackError::NoPreviousFrame`] if fewer than two frames have been
    /// pushed.
    pub fn calculate_flow(&mut self) -> (r: Result<(), TrackError>)
        requires
            old(self).well_formed(),
        ensures
            final(self).well_formed(),
            r is Err <==> !old(self)@.has_previous,
            r matches Err(err) ==> err == TrackError::NoPreviousFrame,
            r is Err ==> final(self)@ == old(self)@,
            r is Ok ==> final(self)@ == followed(old(self)@),
    {
        if !self.has_prev {
            return Err(TrackError::NoPreviousFrame);
        }
        let ghost s = self@;
        let ghost start = self.prev_frame.features@;
        self.curr_frame.features.clear();
        let mut i: usize = 0;
        while i < self.prev_frame.features.len()
            invariant
                self.well_formed(),
                self@ == with_current(s, self.curr_frame.features@),
                self.prev_frame.features@ == start,
                i <= start.len(),
                self.curr_frame.features@ =~= start.take(i as int),
            decreases start.len() - i,
        {
            let f: Feature = self.prev_frame.features[i];
            self.curr_frame.features.push(f);
            i = i + 1;
        }
        assert(self.curr_frame.features@ =~= start);
        track(
            &mut self.lk_buffer,
            &self.prev_frame.pyramid,
            &self.curr_frame.pyramid,
            &mut self.curr_frame.features,
            self.settings.max_iterations,
        );
        Ok(())
    }

    /// Returns the features for the most recently pushed frame.
    pub fn current_features(&self) -> (r: &[Feature])
        ensures
            r@ == self@.current.features,
    {
        self.curr_frame.features.as_slice()
    }

    /// Returns the features for the frame prior to the most recently pushed
    /// one.
    pub fn previous_features(&self) -> (r: &[Feature])
        ensures
            r@ == self@.previous.features,
    {
        self.prev_frame.features.as_slice()
    }

    /// Mutable view of the current frame's feature list. The next
    /// [`detect_features`](Self::detect_features) or
    /// [`calculate_flow`](Self::calculate_flow) call overwrites the list.
    pub fn current_features_mut(&mut self) -> (r: &mut Vec<Feature>)
        requires
            old(self).well_formed(),
        ensures
            r@ == old(self)@.current.features,
            final(self)@ == with_current(old(self)@, final(r)@),
            final(self).well_formed(),
    {
        &mut self.curr_frame.features
    }

    /// Mutable view of the previous frame's feature list, which the next
    /// [`calculate_flow`](Self::calculate_flow) reads.
    pub fn previous_features_mut(&mut self) -> (r: &mut Vec<Feature>)
        requires
            old(self).well_formed(),
        ensures
            r@ == old(self)@.previous.features,
            final(self)@ == (BufferState {
                previous: FrameState { features: final(r)@, ..old(self)@.previous },
                ..old(self)@
            }),
            final(self).well_formed(),
    {
        &mut self.prev_frame.features
    }

    /// True after at least one `push_frame` call.
    pub fn has_current_frame(&self) -> (r: bool)
        ensures
            r == self@.has_current,
    {
        self.has_curr
    }

    /// True after at least two `push_frame` calls.
    pub fn has_previous_frame(&self) -> (r: bool)
        ensures
            r == self@.has_previous,
    {
        self.has_prev
    }

    /// `(width, height)` configured at build time.
    pub fn dimensions(&self) -> (r: (u32, u32))
        ensures
            r == (self@.settings.width, self@.settings.height),
    {
        (self.settings.width, self.settings.height)
    }

    /// Number of pyramid levels configured at build time.
    pub fn pyramid_levels(&self) -> (r: usize)
        ensures
            r == self@.settings.pyramid_levels,
    {
        self.settings.pyramid_levels
    }

    /// Configured search window side length, in pixels.
    pub fn window_size(&self) -> (r: usize)
        ensures
            r == self@.settings.window_size,
    {
        self.settings.window_size
    }

    /// Configured maximum refinement iterations per pyramid level.
    pub fn max_iterations(&self) -> (r: usize)
        ensures
            r == self@.settings.max_iterations,
    {
        self.settings.max_iterations
    }

    /// Configured Shi-Tomasi quality threshold.
    pub fn feature_quality_level(&self) -> (r: Binary32)
        ensures
            r == self@.settings.feature_quality_level,
    {
        self.settings.feature_quality_level
    }

    /// Configured minimum spatial separation between features, in pixels.
    pub fn feature_min_distance(&self) -> (r: u32)
        ensures
            r == self@.settings.feature_min_distance,
    {
        self.settings.feature_min_distance
    }

    /// Configured upper bound on detected features.
    pub fn max_features(&self) -> (r: usize)
        ensures
            r == self@.settings.max_features,
    {
        self.settings.max_features
    }
}

} // verus!

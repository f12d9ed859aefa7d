//! Steady-state tracking pipeline.
//!
//! [`OpticalFlowBuilder`] gathers the global parameters and resolution.
//! [`OpticalFlowBuilder::build`] returns an [`OpticalFlowTracker`] with its
//! internal buffers allocated. For manual pipeline assembly see
//! [`buffers`](crate::buffers).
use vstd::prelude::*;

use crate::binary32::{
    lemma_product_zero, lemma_square_number, lemma_sum_zero, of_int, Binary32,
};
use crate::buffers::{detect_features, track};
use crate::corners::{
    are_apart, is_corner, is_feature_at, is_on_corner, lemma_detected, lemma_nothing_missed,
};
use crate::error::TrackError;
use crate::feature::{is_unmoved, Feature};
use crate::features::{
    is_detection, lemma_detection_determined, lemma_detection_in_views, score,
    FeaturesBuffer,
};
use crate::flat::{is_same_image, lemma_same_image, FlatSamples};
use crate::grid::{lemma_index, Grid};
use crate::lk::{
    flow_point, flow_status, has_flow, lemma_skipped_stays, moved, moved_all, zero, LkBuffer,
};
use crate::pyramid::{
    lemma_level_count, lemma_uniform_level, level_count, pyramid, PyramidBuffer,
};
use crate::raster::uniform;
use crate::settings::{default_settings, Settings};
use crate::still::{lemma_frame_still, lemma_frame_still_round_trip};
use crate::validate::{frame_verdict, validate_frame};

verus! {

/// Builder for [`OpticalFlowTracker`].
pub struct OpticalFlowBuilder {
    settings: Settings,
}

impl View for OpticalFlowBuilder {
    type V = Settings;

    closed spec fn view(&self) -> Settings {
        self.settings
    }
}

impl OpticalFlowBuilder {
    /// Start a builder for a fixed-resolution pipeline.
    ///
    /// Defaults: 3 pyramid levels, 21x21 window, 30 max iterations,
    /// `quality_level = 0.4`, `min_distance = 10`, `max_features = 500`.
    pub fn new(width: u32, height: u32) -> (r: OpticalFlowBuilder)
        ensures
            r@ == default_settings(width, height),
    {
        OpticalFlowBuilder { settings: Settings::new(width, height) }
    }

    /// Number of pyramid levels. Level 0 is full resolution; each subsequent
    /// level halves both dimensions. Must be > 0.
    pub fn pyramid_levels(self, levels: usize) -> (r: OpticalFlowBuilder)
        ensures
            r@ == (Settings { pyramid_levels: levels, ..self@ }),
    {
        OpticalFlowBuilder { settings: Settings { pyramid_levels: levels, ..self.settings } }
    }

    /// Side length of the Lucas-Kanade search window, in pixels. Must be odd.
    pub fn window_size(self, size: usize) -> (r: OpticalFlowBuilder)
        ensures
            r@ == (Settings { window_size: size, ..self@ }),
    {
        OpticalFlowBuilder { settings: Settings { window_size: size, ..self.settings } }
    }

    /// Maximum refinement iterations per pyramid level.
    pub fn max_iterations(self, n: usize) -> (r: OpticalFlowBuilder)
        ensures
            r@ == (Settings { max_iterations: n, ..self@ }),
    {
        OpticalFlowBuilder { settings: Settings { max_iterations: n, ..self.settings } }
    }

    /// Shi-Tomasi quality threshold, as a fraction of the strongest corner's
    /// score in each frame.
    pub fn feature_quality_level(self, q: Binary32) -> (r: OpticalFlowBuilder)
        ensures
            r@ == (Settings { feature_quality_level: q, ..self@ }),
    {
        OpticalFlowBuilder { settings: Settings { feature_quality_level: q, ..self.settings } }
    }

    /// Minimum spatial separation between accepted features, in pixels.
    pub fn feature_min_distance(self, d: u32) -> (r: OpticalFlowBuilder)
        ensures
            r@ == (Settings { feature_min_distance: d, ..self@ }),
    {
        OpticalFlowBuilder { settings: Settings { feature_min_distance: d, ..self.settings } }
    }

    /// Hard upper bound on the number of features that are detected.
    pub fn max_features(self, n: usize) -> (r: OpticalFlowBuilder)
        ensures
            r@ == (Settings { max_features: n, ..self@ }),
    {
        OpticalFlowBuilder { settings: Settings { max_features: n, ..self.settings } }
    }

    /// Construct the tracker, pre-allocating its storage.
    pub fn build(self) -> (r: OpticalFlowTracker)
        requires
            self@.is_buildable(),
        ensures
            r.well_formed(),
            r@ == initial_state(self@),
    {
        let s: Settings = self.settings;
        proof {
            lemma_level_count(s.width as int, s.height as int, s.pyramid_levels as nat);
        }
        let prev_pyramid: PyramidBuffer = PyramidBuffer::with_capacity(
            s.width,
            s.height,
            s.pyramid_levels,
        );
        let curr_pyramid: PyramidBuffer = PyramidBuffer::with_capacity(
            s.width,
            s.height,
            s.pyramid_levels,
        );
        let lk_buffer: LkBuffer = LkBuffer::with_capacity(
            s.width,
            s.height,
            s.pyramid_levels,
            s.window_size,
            s.max_features,
        );
        let features_buffer: FeaturesBuffer = FeaturesBuffer::with_capacity(
            s.width,
            s.height,
            s.feature_min_distance,
            s.max_features,
        );
        OpticalFlowTracker {
            settings: s,
            prev_pyramid,
            curr_pyramid,
            features: Vec::with_capacity(s.max_features),
            lk_buffer,
            features_buffer,
            fb_origin: Vec::with_capacity(s.max_features),
            fb_back: Vec::with_capacity(s.max_features),
            fb_fwd_valid: Vec::with_capacity(s.max_features),
            fb_back_valid: Vec::with_capacity(s.max_features),
            frame_count: 0,
        }
    }
}

/// What a tracker knows.
#[verifier::ext_equal]
pub struct TrackerState {
    pub settings: Settings,
    pub features: Seq<Feature>,
    /// Pyramid of the frame before the last.
    pub previous: Seq<Grid<u8>>,
    /// Pyramid of the last frame.
    pub current: Seq<Grid<u8>>,
    pub frame_count: u64,
}

/// A tracker that has seen no frame.
pub open spec fn initial_state(settings: Settings) -> TrackerState {
    let black = pyramid(
        uniform(settings.width as int, settings.height as int, 0u8),
        level_count(
            settings.width as int,
            settings.height as int,
            settings.pyramid_levels as nat,
        ),
    );
    TrackerState {
        settings,
        features: Seq::empty(),
        previous: black,
        current: black,
        frame_count: 0,
    }
}

/// A tracker after one frame more: the last frame becomes the previous one and
/// the features stay as they are.
pub open spec fn pushed(s: TrackerState, frame: Grid<u8>) -> TrackerState {
    TrackerState {
        previous: s.current,
        current: pyramid(frame, s.current.len()),
        frame_count: (s.frame_count + 1) as u64,
        ..s
    }
}

/// What a tracker detects in the last frame.
pub open spec fn detects(s: TrackerState, found: Seq<Feature>) -> bool {
    is_detection(
        found,
        s.current[0],
        s.settings.feature_quality_level,
        s.settings.feature_min_distance,
        s.settings.max_features as int,
    )
}

/// A tracker after its features have been moved from the previous frame to the
/// last.
pub open spec fn flowed(s: TrackerState) -> TrackerState {
    TrackerState {
        features: moved_all(
            s.previous,
            s.current,
            s.settings.radius(),
            s.settings.max_iterations as int,
            s.features,
        ),
        ..s
    }
}

/// A feature that has a flow estimate forward and back, and comes back to
/// within `max_fb_error` pixels of where it started. No distance is within a
/// negative bound.
pub open spec fn survives_round_trip(s: TrackerState, max_fb_error: Binary32, f: Feature) -> bool {
    let radius = s.settings.radius();
    let iterations = s.settings.max_iterations as int;
    let there = moved(s.previous, s.current, radius, iterations, f);
    let back = moved(s.current, s.previous, radius, iterations, there);
    let ex = back.x.difference(f.x);
    let ey = back.y.difference(f.y);
    &&& has_flow(s.previous, s.current, radius, iterations, (f.x, f.y))
    &&& has_flow(s.current, s.previous, radius, iterations, (there.x, there.y))
    &&& of_int(0).is_at_most(max_fb_error)
    &&& ex.product(ex).sum(ey.product(ey)).is_at_most(max_fb_error.product(max_fb_error))
}

/// After two frames a tracker holds the pyramids of both, and the features
/// that it had before.
pub proof fn lemma_two_frames(s: TrackerState, first: Grid<u8>, second: Grid<u8>)
    requires
        s.frame_count + 2 <= u64::MAX,
    ensures
        pushed(pushed(s, first), second).previous == pyramid(first, s.current.len()),
        pushed(pushed(s, first), second).current == pyramid(second, s.current.len()),
        pushed(pushed(s, first), second).features == s.features,
        pushed(pushed(s, first), second).settings == s.settings,
        pushed(pushed(s, first), second).frame_count == s.frame_count + 2,
{
}

/// Two views of the same pixels cannot be told apart by a tracker, whatever
/// the strides of their rows and the buffers behind them: it accepts or refuses
/// both, and is in the same state after either, so that it tracks the same
/// features, to the same places, and finds the same of them valid.
pub proof fn lemma_views_are_alike(s: TrackerState, a: FlatSamples<'_>, b: FlatSamples<'_>)
    requires
        is_same_image(a, b),
    ensures
        frame_verdict(a, s.settings.width, s.settings.height) == frame_verdict(
            b,
            s.settings.width,
            s.settings.height,
        ),
        pushed(s, a.grid()) == pushed(s, b.grid()),
        flowed(pushed(s, a.grid())) == flowed(pushed(s, b.grid())),
        forall|bound: Binary32, f: Feature|
            survives_round_trip(pushed(s, a.grid()), bound, f) == #[trigger] survives_round_trip(
                pushed(s, b.grid()),
                bound,
                f,
            ),
{
    lemma_same_image(a, b);
}

/// What a tracker detects after either of two views of the same pixels is the
/// same.
pub proof fn lemma_views_detect_alike(
    s: TrackerState,
    a: FlatSamples<'_>,
    b: FlatSamples<'_>,
    found: Seq<Feature>,
    other: Seq<Feature>,
)
    requires
        is_same_image(a, b),
        s.current.len() > 0,
        detects(pushed(s, a.grid()), found),
        detects(pushed(s, b.grid()), other),
    ensures
        found == other,
{
    lemma_detection_in_views(
        found,
        other,
        a,
        b,
        s.settings.feature_quality_level,
        s.settings.feature_min_distance,
        s.settings.max_features as int,
    );
}

/// What a tracker detects depends on its last frame and its settings alone: on
/// no frame before it, on no feature that it holds, and on no storage that it
/// reuses.
pub proof fn lemma_detects_alike(
    s: TrackerState,
    t: TrackerState,
    a: Seq<Feature>,
    b: Seq<Feature>,
)
    requires
        s.settings == t.settings,
        s.settings.is_frame(s.current),
        s.current == t.current,
        detects(s, a),
        detects(t, b),
    ensures
        a == b,
{
    lemma_detection_determined(
        a,
        b,
        s.current[0],
        s.settings.feature_quality_level,
        s.settings.feature_min_distance,
        s.settings.max_features as int,
    );
}

/// What a tracker detects follows its settings: no more features than
/// `max_features`, in descending order of strength, each on a corner of the last
/// frame with its score for strength, which reaches `feature_quality_level` of
/// the score of every corner, and every two of them apart by
/// `feature_min_distance` pixels.
pub proof fn lemma_detection_follows_settings(s: TrackerState, found: Seq<Feature>)
    requires
        s.settings.is_frame(s.current),
        s.settings.width <= 0x100_0000,
        s.settings.height <= 0x100_0000,
        s.settings.feature_quality_level.is_finite(),
        of_int(0).is_at_most(s.settings.feature_quality_level),
        detects(s, found),
    ensures
        found.len() <= s.settings.max_features,
        forall|i: int| 0 <= i < found.len() ==> is_on_corner(#[trigger] found[i], s.current[0]),
        forall|i: int, x: int, y: int|
            0 <= i < found.len() && #[trigger] is_corner(s.current[0], x, y)
                ==> s.settings.feature_quality_level.product(
                score(s.current[0], x, y),
            ).is_at_most((#[trigger] found[i]).strength),
        forall|i: int, j: int|
            0 <= i < j < found.len() ==> (#[trigger] found[j]).strength.is_at_most(
                (#[trigger] found[i]).strength,
            ),
        forall|i: int, j: int|
            0 <= i < j < found.len() ==> are_apart(
                #[trigger] found[i],
                #[trigger] found[j],
                s.settings.feature_min_distance,
            ),
{
    lemma_detected(
        found,
        s.current[0],
        s.settings.feature_quality_level,
        s.settings.feature_min_distance,
        s.settings.max_features as int,
    );
}

/// A tracker that detects fewer features than `max_features` leaves out no
/// corner but those of too low a score and those that are nearer than
/// `feature_min_distance` to a detected one.
pub proof fn lemma_detection_misses_nothing(s: TrackerState, found: Seq<Feature>, x: int, y: int)
    requires
        s.settings.is_frame(s.current),
        s.settings.feature_quality_level.is_finite(),
        of_int(0).is_at_most(s.settings.feature_quality_level),
        detects(s, found),
        found.len() < s.settings.max_features,
        is_corner(s.current[0], x, y),
        of_int(0).is_at_most(score(s.current[0], x, y)),
        forall|i: int, j: int| #[trigger]
            is_corner(s.current[0], i, j) ==> s.settings.feature_quality_level.product(
                score(s.current[0], i, j),
            ).is_at_most(score(s.current[0], x, y)),
    ensures
        exists|i: int, px: int, py: int|
            0 <= i < found.len() && #[trigger] is_feature_at(found[i], px, py) && (px == x && py
                == y || (px - x) * (px - x) + (py - y) * (py - y) < s.settings.feature_min_distance
                * s.settings.feature_min_distance),
{
    lemma_nothing_missed(
        found,
        s.current[0],
        s.settings.feature_quality_level,
        s.settings.feature_min_distance,
        s.settings.max_features as int,
        x,
        y,
    );
}

/// A tracker moves its features from the previous frame to the last with the
/// configured window and number of iterations, each to where it is alone.
pub proof fn lemma_flow_follows_settings(s: TrackerState, i: int)
    requires
        0 <= i < s.features.len(),
    ensures
        ({
            let f = s.features[i];
            let to = flow_point(
                s.previous,
                s.current,
                s.settings.window_size as int / 2,
                s.settings.max_iterations as int,
                (f.x, f.y),
            );
            flowed(s).features[i] == (Feature { x: to.0, y: to.1, strength: f.strength })
        }),
{
}

/// A new tracker has seen no frame, has no features, and holds black pyramids of
/// the configured resolution.
pub proof fn lemma_initial_state(settings: Settings, l: int, x: int, y: int)
    requires
        settings.is_buildable(),
        0 <= l < initial_state(settings).current.len(),
        initial_state(settings).current[l].contains(x, y),
    ensures
        initial_state(settings).frame_count == 0,
        initial_state(settings).features.len() == 0,
        initial_state(settings).settings == settings,
        settings.is_frame(initial_state(settings).current),
        initial_state(settings).previous == initial_state(settings).current,
        initial_state(settings).current[l].at(x, y) == 0,
{
    let w = settings.width as int;
    let h = settings.height as int;
    assert(0 <= w * h) by (nonlinear_arith)
        requires
            0 <= w,
            0 <= h,
    ;
    lemma_level_count(w, h, settings.pyramid_levels as nat);
    lemma_uniform_level(w, h, 0u8, l as nat);
    let g = initial_state(settings).current[l];
    lemma_index(g.width, g.height, x, y);
    assert(initial_state(settings).current[0] == uniform(w, h, 0u8));
}

/// A frame that is pushed becomes the last one, as it is, and the last one the
/// previous; the features stay.
pub proof fn lemma_pushed(s: TrackerState, frame: Grid<u8>)
    requires
        s.current.len() > 0,
        s.frame_count < u64::MAX,
    ensures
        pushed(s, frame).current.len() == s.current.len(),
        pushed(s, frame).current[0] == frame,
        pushed(s, frame).previous == s.current,
        pushed(s, frame).features == s.features,
        pushed(s, frame).settings == s.settings,
        pushed(s, frame).frame_count == s.frame_count + 1,
{
}

/// Moving the features changes nothing else, neither their number nor their
/// strengths.
pub proof fn lemma_flow_keeps(s: TrackerState)
    ensures
        flowed(s).features.len() == s.features.len(),
        forall|i: int|
            0 <= i < s.features.len() ==> (#[trigger] flowed(s).features[i]).strength
                == s.features[i].strength,
        flowed(s).previous == s.previous,
        flowed(s).current == s.current,
        flowed(s).frame_count == s.frame_count,
        flowed(s).settings == s.settings,
{
}

/// A feature that has no flow estimate stays where it is.
pub proof fn lemma_skipped_feature_stays(s: TrackerState, i: int)
    requires
        0 <= i < s.features.len(),
        !has_flow(
            s.previous,
            s.current,
            s.settings.radius(),
            s.settings.max_iterations as int,
            (s.features[i].x, s.features[i].y),
        ),
    ensures
        is_unmoved(s.features[i], flowed(s).features[i]),
{
    lemma_skipped_stays(
        s.previous,
        s.current,
        s.settings.radius(),
        s.settings.max_iterations as int,
        s.features,
    );
    assert(is_unmoved(
        s.features[i],
        moved_all(
            s.previous,
            s.current,
            s.settings.radius(),
            s.settings.max_iterations as int,
            s.features,
        )[i],
    ));
}

/// Two views of the same pixels, one pushed after the other, leave a tracker
/// whose two frames are the same.
pub proof fn lemma_frame_repeated(s: TrackerState, a: FlatSamples<'_>, b: FlatSamples<'_>)
    requires
        is_same_image(a, b),
        a.layout.width == s.settings.width,
        a.layout.height == s.settings.height,
        s.settings.is_frame(s.current),
    ensures
        ({
            let t = pushed(pushed(s, a.grid()), b.grid());
            &&& t.previous == t.current
            &&& t.settings.is_frame(t.current)
            &&& t.settings == s.settings
        }),
{
    lemma_same_image(a, b);
    let g = a.grid();
    assert(g.is_exact()) by {
        assert(0 <= g.width * g.height) by (nonlinear_arith)
            requires
                0 <= g.width,
                0 <= g.height,
        ;
    }
    assert(pyramid(g, s.current.len())[0] == g);
}

/// Between two frames that are the same no feature moves.
pub proof fn lemma_still_frames(s: TrackerState, i: int)
    requires
        s.settings.is_buildable(),
        s.settings.width <= 0x8000_0000,
        s.settings.height <= 0x8000_0000,
        s.settings.is_frame(s.current),
        s.previous == s.current,
        0 <= i < s.features.len(),
    ensures
        is_unmoved(s.features[i], flowed(s).features[i]),
{
    lemma_frame_still(s.settings, s.current, s.features[i]);
}

/// Between two frames that are the same every feature that has a flow estimate
/// survives the round trip within any bound that is not negative.
#[verifier::rlimit(40)]
pub proof fn lemma_still_round_trip(s: TrackerState, max_fb_error: Binary32, f: Feature)
    requires
        s.settings.is_buildable(),
        s.settings.width <= 0x8000_0000,
        s.settings.height <= 0x8000_0000,
        s.settings.is_frame(s.current),
        s.previous == s.current,
        has_flow(
            s.previous,
            s.current,
            s.settings.radius(),
            s.settings.max_iterations as int,
            (f.x, f.y),
        ),
        of_int(0).is_at_most(max_fb_error),
    ensures
        survives_round_trip(s, max_fb_error, f),
{
    lemma_frame_still_round_trip(s.settings, s.current, f);
    let none = zero();
    lemma_product_zero(none, none);
    lemma_sum_zero(none.product(none), none.product(none));
    lemma_square_number(max_fb_error);
}

/// No feature survives a round trip whose bound is negative.
pub proof fn lemma_negative_bound(s: TrackerState, max_fb_error: Binary32, f: Feature)
    requires
        max_fb_error.is_less(of_int(0)),
    ensures
        !survives_round_trip(s, max_fb_error, f),
{
}

/// Steady-state tracking pipeline.
///
/// Owns a single feature list that describes positions in whichever frame was
/// most recently consumed by [`detect_features`] or [`calculate_flow`].
/// [`push_frame`] does not touch the features; it rotates the internal
/// pyramids so that the next [`calculate_flow`] tracks the features from the
/// previous frame into the one just pushed.
///
/// [`detect_features`]: Self::detect_features
/// [`calculate_flow`]: Self::calculate_flow
/// [`push_frame`]: Self::push_frame
pub struct OpticalFlowTracker {
    settings: Settings,
    prev_pyramid: PyramidBuffer,
    curr_pyramid: PyramidBuffer,
    features: Vec<Feature>,
    lk_buffer: LkBuffer,
    features_buffer: FeaturesBuffer,
    fb_origin: Vec<(Binary32, Binary32)>,
    fb_back: Vec<Feature>,
    fb_fwd_valid: Vec<bool>,
    fb_back_valid: Vec<bool>,
    frame_count: u64,
}

impl View for OpticalFlowTracker {
    type V = TrackerState;

    closed spec fn view(&self) -> TrackerState {
        TrackerState {
            settings: self.settings,
            features: self.features@,
            previous: self.prev_pyramid@,
            current: self.curr_pyramid@,
            frame_count: self.frame_count,
        }
    }
}

impl OpticalFlowTracker {
    /// The buffers fit the settings.
    pub closed spec fn well_formed(&self) -> bool {
        &&& self.settings.is_buildable()
        &&& self.prev_pyramid.well_formed()
        &&& self.curr_pyramid.well_formed()
        &&& self.settings.is_frame(self.prev_pyramid@)
        &&& self.settings.is_frame(self.curr_pyramid@)
        &&& self.lk_buffer.well_formed()
        &&& self.lk_buffer.radius() == self.settings.radius()
        &&& self.features_buffer.well_formed()
    }

    /// The two pyramids are those of frames of the configured resolution.
    pub proof fn lemma_frames(&self)
        requires
            self.well_formed(),
        ensures
            self@.settings.is_buildable(),
            self@.settings.is_frame(self@.previous),
            self@.settings.is_frame(self@.current),
    {
    }

    /// Rotate the pyramids and build that of the new frame. The features keep
    /// their positions, which now describe locations in the previous frame. A
    /// frame that is refused leaves the tracker as it is.
    pub fn push_frame(&mut self, image: &FlatSamples<'_>) -> (r: Result<(), TrackError>)
        requires
            old(self).well_formed(),
            old(self)@.frame_count < u64::MAX,
        ensures
            final(self).well_formed(),
            r == frame_verdict(*image, old(self)@.settings.width, old(self)@.settings.height),
            r is Ok ==> final(self)@ == pushed(old(self)@, image.grid()),
            r is Err ==> final(self)@ == old(self)@,
    {
        match validate_frame(image, self.settings.width, self.settings.height) {
            Err(err) => Err(err),
            Ok(()) => {
                std::mem::swap(&mut self.prev_pyramid, &mut self.curr_pyramid);
                self.curr_pyramid.build_into(image);
                self.frame_count = self.frame_count + 1;
                Ok(())
            },
        }
    }

    /// Detect Shi-Tomasi corner features on the most recently pushed frame, up
    /// to [`max_features`](Self::max_features), in descending quality order.
    /// Errors [`TrackError::NoCurrentFrame`] if no frame has been pushed.
    pub fn detect_features(&mut self) -> (r: Result<(), TrackError>)
        requires
            old(self).well_formed(),
        ensures
            final(self).well_formed(),
            r is Err <==> old(self)@.frame_count == 0,
            r matches Err(err) ==> err == TrackError::NoCurrentFrame,
            r is Err ==> final(self)@ == old(self)@,
            old(self)@.settings.is_frame(old(self)@.current),
            r is Ok ==> detects(old(self)@, final(self)@.features),
            final(self)@ == (TrackerState { features: final(self)@.features, ..old(self)@ }),
    {
        if self.frame_count == 0 {
            return Err(TrackError::NoCurrentFrame);
        }
        detect_features(
            &mut self.features_buffer,
            &self.curr_pyramid,
            self.settings.feature_quality_level,
            self.settings.feature_min_distance,
            self.settings.max_features,
            &mut self.features,
        );
        Ok(())
    }

    /// Track the features from the previous frame into the most recently
    /// pushed frame using Lucas-Kanade, changing the position of each in
    /// place. `strength` is left untouched. Errors
    /// [`TrackError::NoPreviousFrame`] if fewer than two frames have been
    /// pushed.
    pub fn calculate_flow(&mut self) -> (r: Result<(), TrackError>)
        requires
            old(self).well_formed(),
        ensures
            final(self).well_formed(),
            r is Err <==> old(self)@.frame_count < 2,
            r matches Err(err) ==> err == TrackError::NoPreviousFrame,
            r is Err ==> final(self)@ == old(self)@,
            r is Ok ==> final(self)@ == flowed(old(self)@),
    {
        if self.frame_count < 2 {
            return Err(TrackError::NoPreviousFrame);
        }
        track(
            &mut self.lk_buffer,
            &self.prev_pyramid,
            &self.curr_pyramid,
            &mut self.features,
            self.settings.max_iterations,
        );
        Ok(())
    }

    /// Forward-backward validated optical flow.
    ///
    /// Runs the forward pass exactly like
    /// [`calculate_flow`](Self::calculate_flow), then tracks every feature
    /// backward from its new position into the previous frame and measures the
    /// round-trip distance to where it started. A feature is reported as not
    /// valid where either pass skipped it or the round-trip error exceeds
    /// `max_fb_error` pixels, as every error does where the bound is negative.
    ///
    /// The features are not pruned: `valid_out` holds one entry for each of
    /// them afterwards. Errors [`TrackError::NoPreviousFrame`] if fewer than
    /// two frames have been pushed.
    pub fn calculate_flow_fb(&mut self, max_fb_error: Binary32, valid_out: &mut Vec<bool>) -> (r:
        Result<(), TrackError>)
        requires
            old(self).well_formed(),
        ensures
            final(self).well_formed(),
            r is Err <==> old(self)@.frame_count < 2,
            r matches Err(err) ==> err == TrackError::NoPreviousFrame,
            r is Err ==> final(self)@ == old(self)@ && final(valid_out)@ == old(valid_out)@,
            r is Ok ==> final(self)@ == flowed(old(self)@),
            r is Ok ==> final(valid_out)@ == Seq::new(
                old(self)@.features.len(),
                |i: int|
                    survives_round_trip(old(self)@, max_fb_error, old(self)@.features[i]),
            ),
    {
        if self.frame_count < 2 {
            return Err(TrackError::NoPreviousFrame);
        }
        let ghost s = self@;
        let ghost start = self.features@;
        let ghost radius = s.settings.radius();
        let ghost iterations = s.settings.max_iterations as int;
        self.fb_origin.clear();
        let mut i: usize = 0;
        while i < self.features.len()
            invariant
                self.well_formed(),
                self@ == s,
                self.features@ == start,
                i <= start.len(),
                self.fb_origin@.len() == i,
                forall|j: int|
                    0 <= j < i ==> #[trigger] self.fb_origin@[j] == (start[j].x, start[j].y),
            decreases start.len() - i,
        {
            let f: Feature = self.features[i];
            self.fb_origin.push((f.x, f.y));
            i = i + 1;
        }
        self.lk_buffer.calc_into_status_cached(
            &self.prev_pyramid,
            &self.curr_pyramid,
            &mut self.features,
            self.settings.max_iterations,
            Some(&mut self.fb_fwd_valid),
        );
        let ghost there = self.features@;
        self.fb_back.clear();
        let mut k: usize = 0;
        while k < self.features.len()
            invariant
                self.well_formed(),
                self@ == flowed(s),
                self.features@ == there,
                start.len() == there.len(),
                self.fb_origin@.len() == start.len(),
                forall|j: int|
                    0 <= j < start.len() ==> #[trigger] self.fb_origin@[j] == (
                        start[j].x,
                        start[j].y,
                    ),
                self.fb_fwd_valid@ == flow_status(
                    s.previous,
                    s.current,
                    radius,
                    iterations,
                    start,
                ),
                k <= there.len(),
                self.fb_back@ =~= there.take(k as int),
            decreases there.len() - k,
        {
            let f: Feature = self.features[k];
            self.fb_back.push(f);
            k = k + 1;
        }
        assert(self.fb_back@ =~= there);
        self.lk_buffer.calc_into_status_cached(
            &self.curr_pyramid,
            &self.prev_pyramid,
            &mut self.fb_back,
            self.settings.max_iterations,
            Some(&mut self.fb_back_valid),
        );
        let ghost back = self.fb_back@;
        let is_bound: bool = Binary32::from_int(0).le(max_fb_error);
        let max_err2: Binary32 = max_fb_error.times(max_fb_error);
        valid_out.clear();
        let mut n: usize = 0;
        while n < self.features.len()
            invariant
                self.well_formed(),
                self@ == flowed(s),
                s.features == start,
                radius == s.settings.radius(),
                iterations == s.settings.max_iterations,
                self.features@ == there,
                there == moved_all(s.previous, s.current, radius, iterations, start),
                back == moved_all(s.current, s.previous, radius, iterations, there),
                self.fb_back@ == back,
                self.fb_origin@.len() == start.len(),
                forall|j: int|
                    0 <= j < start.len() ==> #[trigger] self.fb_origin@[j] == (
                        start[j].x,
                        start[j].y,
                    ),
                self.fb_fwd_valid@ == flow_status(
                    s.previous,
                    s.current,
                    radius,
                    iterations,
                    start,
                ),
                self.fb_back_valid@ == flow_status(
                    s.current,
                    s.previous,
                    radius,
                    iterations,
                    there,
                ),
                is_bound == of_int(0).is_at_most(max_fb_error),
                max_err2 == max_fb_error.product(max_fb_error),
                n <= there.len(),
                valid_out@.len() == n,
                forall|j: int|
                    0 <= j < n ==> #[trigger] valid_out@[j] == survives_round_trip(
                        s,
                        max_fb_error,
                        start[j],
                    ),
            decreases there.len() - n,
        {
            let fwd_ok: bool = self.fb_fwd_valid[n];
            let back_ok: bool = self.fb_back_valid[n];
            let (ox, oy) = self.fb_origin[n];
            let returned: Feature = self.fb_back[n];
            let ex: Binary32 = returned.x.minus(ox);
            let ey: Binary32 = returned.y.minus(oy);
            let err2: Binary32 = ex.times(ex).plus(ey.times(ey));
            valid_out.push(fwd_ok && back_ok && is_bound && err2.le(max_err2));
            n = n + 1;
        }
        assert(valid_out@ =~= Seq::new(
            start.len(),
            |i: int| survives_round_trip(s, max_fb_error, start[i]),
        ));
        Ok(())
    }

    /// Borrow the current feature list.
    pub fn features(&self) -> (r: &[Feature])
        ensures
            r@ == self@.features,
    {
        self.features.as_slice()
    }

    /// Mutable view of the feature list. Callers may push, pop, retain, or
    /// modify individual entries. The next
    /// [`detect_features`](Self::detect_features) overwrites the list;
    /// [`calculate_flow`](Self::calculate_flow) changes positions in place.
    pub fn features_mut(&mut self) -> (r: &mut Vec<Feature>)
        requires
            old(self).well_formed(),
        ensures
            r@ == old(self)@.features,
            final(self)@ == (TrackerState { features: final(r)@, ..old(self)@ }),
            final(self).well_formed(),
    {
        &mut self.features
    }

    /// Number of frames consumed by [`push_frame`](Self::push_frame).
    pub fn frame_count(&self) -> (r: u64)
        ensures
            r == self@.frame_count,
    {
        self.frame_count
    }

    /// `(width, height)` configured at build time.
    pub fn dimensions(&self) -> (r: (u32, u32))
        ensures
            r == (self@.settings.width, self@.settings.height),
    {
        (self.settings.width, self.settings.height)
    }

    /// Number of pyramid levels configured at build time.
    pub fn pyramid_levels(&self) -> (r: usize)
        ensures
            r == self@.settings.pyramid_levels,
    {
        self.settings.pyramid_levels
    }

    /// Configured search window side length, in pixels.
    pub fn window_size(&self) -> (r: usize)
        ensures
            r == self@.settings.window_size,
    {
        self.settings.window_size
    }

    /// Configured maximum refinement iterations per pyramid level.
    pub fn max_iterations(&self) -> (r: usize)
        ensures
            r == self@.settings.max_iterations,
    {
        self.settings.max_iterations
    }

    /// Configured Shi-Tomasi quality threshold.
    pub fn feature_quality_level(&self) -> (r: Binary32)
        ensures
            r == self@.settings.feature_quality_level,
    {
        self.settings.feature_quality_level
    }

    /// Configured minimum spatial separation between features, in pixels.
    pub fn feature_min_distance(&self) -> (r: u32)
        ensures
            r == self@.settings.feature_min_distance,
    {
        self.settings.feature_min_distance
    }

    /// Configured upper bound on detected features.
    pub fn max_features(&self) -> (r: usize)
        ensures
            r == self@.settings.max_features,
    {
        self.settings.max_features
    }
}

} // verus!

//! Forward-backward validation of tracked features.

use optical_flow_lk::binary32::Binary32;
use optical_flow_lk::{Feature, FlatSamples, OpticalFlowBuilder, SampleLayout, TrackError};

fn make_view(buf: &[u8], width: u32, height: u32) -> FlatSamples<'_> {
    FlatSamples {
        samples: buf,
        layout: SampleLayout {
            channels: 1,
            channel_stride: 1,
            width,
            width_stride: 1,
            height,
            height_stride: width as usize,
        },
    }
}

fn n(v: f32) -> Binary32 {
    Binary32::from_bits(v.to_bits())
}

fn f(v: Binary32) -> f32 {
    f32::from_bits(v.to_bits())
}

fn feature(x: f32, y: f32, strength: f32) -> Feature {
    Feature { x: n(x), y: n(y), strength: n(strength) }
}

/// A frame with an asymmetric ramp on a disk around `(cx, cy)`, flat gray
/// elsewhere.
fn frame_with_patch(width: u32, height: u32, cx: i32, cy: i32) -> Vec<u8> {
    let mut out = vec![128u8; (width * height) as usize];
    let r = 7i32;
    for dy in -r..=r {
        for dx in -r..=r {
            let x = cx + dx;
            let y = cy + dy;
            if dx * dx + dy * dy > r * r {
                continue;
            }
            if x >= 0 && x < width as i32 && y >= 0 && y < height as i32 {
                let v = 128 + 8 * dx + 5 * dy;
                out[(y as u32 * width + x as u32) as usize] = v.clamp(0, 255) as u8;
            }
        }
    }
    out
}

#[test]
fn fb_survives_consistent_translation_prunes_flat_and_oob() {
    let (w, h) = (64u32, 64u32);
    let (shift_x, shift_y) = (2i32, 1i32);
    let frame_a = frame_with_patch(w, h, 30, 30);
    let frame_b = frame_with_patch(w, h, 30 + shift_x, 30 + shift_y);

    let mut tracker = OpticalFlowBuilder::new(w, h)
        .pyramid_levels(2)
        .window_size(7)
        .max_iterations(20)
        .build();

    tracker.push_frame(&make_view(&frame_a, w, h)).unwrap();
    tracker.features_mut().push(feature(30.0, 30.0, 1.0));
    tracker.features_mut().push(feature(10.0, 55.0, 1.0));
    tracker.features_mut().push(feature(2.0, 2.0, 1.0));
    tracker.push_frame(&make_view(&frame_b, w, h)).unwrap();

    let mut valid = Vec::new();
    tracker.calculate_flow_fb(n(1.0), &mut valid).unwrap();

    assert_eq!(valid.len(), 3, "one validity flag per feature");
    assert!(valid[0], "textured patch feature should survive FB validation");
    assert!(!valid[1], "flat-texture feature should be pruned");
    assert!(!valid[2], "out-of-bounds feature should be pruned");

    let f0 = tracker.features()[0];
    assert!((f(f0.x) - (30.0 + shift_x as f32)).abs() < 1.0);
    assert!((f(f0.y) - (30.0 + shift_y as f32)).abs() < 1.0);
}

#[test]
fn fb_rejects_stuck_oob_feature_even_with_zero_motion() {
    let (w, h) = (32u32, 32u32);
    let frame = frame_with_patch(w, h, 16, 16);

    let mut tracker = OpticalFlowBuilder::new(w, h)
        .pyramid_levels(2)
        .window_size(7)
        .max_iterations(10)
        .build();

    tracker.push_frame(&make_view(&frame, w, h)).unwrap();
    // (1, 1) with radius 3 window -> out of bounds at level 0.
    tracker.features_mut().push(feature(1.0, 1.0, 1.0));
    tracker.push_frame(&make_view(&frame, w, h)).unwrap();

    let mut valid = Vec::new();
    tracker.calculate_flow_fb(n(2.0), &mut valid).unwrap();

    assert_eq!(valid.len(), 1);
    assert!(
        !valid[0],
        "stuck out-of-bounds feature must fail FB validation despite zero round-trip error"
    );
    // It was skipped at every level, so it has not moved.
    assert_eq!(tracker.features()[0], feature(1.0, 1.0, 1.0));
}

#[test]
fn fb_errors_before_two_pushes() {
    let mut tracker = OpticalFlowBuilder::new(16, 16).build();
    let frame = vec![0u8; 16 * 16];
    let mut valid = Vec::new();
    assert!(tracker.calculate_flow_fb(n(1.0), &mut valid).is_err());

    tracker.push_frame(&make_view(&frame, 16, 16)).unwrap();
    assert!(tracker.calculate_flow_fb(n(1.0), &mut valid).is_err());
}

#[test]
fn fb_error_is_no_previous_frame_and_changes_nothing() {
    let mut tracker = OpticalFlowBuilder::new(16, 16).build();
    let mut valid = vec![true, false];
    assert_eq!(
        tracker.calculate_flow_fb(n(1.0), &mut valid),
        Err(TrackError::NoPreviousFrame)
    );
    assert_eq!(valid, vec![true, false]);
}

#[test]
fn fb_moves_features_as_plain_flow_does() {
    let (w, h) = (48u32, 48u32);
    let frame_a = frame_with_patch(w, h, 24, 24);
    let frame_b = frame_with_patch(w, h, 25, 24);
    let build = || {
        let mut tracker = OpticalFlowBuilder::new(w, h)
            .pyramid_levels(2)
            .window_size(7)
            .max_iterations(8)
            .build();
        tracker.push_frame(&make_view(&frame_a, w, h)).unwrap();
        tracker.features_mut().push(feature(24.0, 24.0, 1.0));
        tracker.features_mut().push(feature(20.5, 26.25, 2.0));
        tracker.push_frame(&make_view(&frame_b, w, h)).unwrap();
        tracker
    };
    let mut plain = build();
    plain.calculate_flow().unwrap();
    let mut checked = build();
    let mut valid = vec![true; 9];
    checked.calculate_flow_fb(n(0.5), &mut valid).unwrap();
    assert_eq!(valid.len(), 2);
    assert_eq!(plain.features(), checked.features());
}

#[test]
fn fb_accepts_nothing_within_a_negative_bound() {
    let (w, h) = (48u32, 48u32);
    let frame_a = frame_with_patch(w, h, 24, 24);
    let frame_b = frame_with_patch(w, h, 25, 24);
    for (bound, expected) in [(2.0f32, true), (-2.0, false), (f32::NEG_INFINITY, false)] {
        let mut tracker = OpticalFlowBuilder::new(w, h)
            .pyramid_levels(2)
            .window_size(7)
            .max_iterations(8)
            .build();
        tracker.push_frame(&make_view(&frame_a, w, h)).unwrap();
        tracker.features_mut().push(feature(24.0, 24.0, 1.0));
        tracker.push_frame(&make_view(&frame_b, w, h)).unwrap();
        let mut valid = Vec::new();
        tracker.calculate_flow_fb(n(bound), &mut valid).unwrap();
        assert_eq!(valid, vec![expected], "bound {bound}");
    }
}

#[test]
fn fb_gate_closes_when_no_error_is_allowed() {
    let (w, h) = (48u32, 48u32);
    let frame_a = frame_with_patch(w, h, 24, 24);
    let frame_b = frame_with_patch(w, h, 25, 25);
    let mut tracker =
        OpticalFlowBuilder::new(w, h).pyramid_levels(2).window_size(7).max_iterations(3).build();
    tracker.push_frame(&make_view(&frame_a, w, h)).unwrap();
    tracker.features_mut().push(feature(23.3, 24.6, 1.0));
    tracker.push_frame(&make_view(&frame_b, w, h)).unwrap();
    let mut valid = Vec::new();
    tracker.calculate_flow_fb(n(0.0), &mut valid).unwrap();
    assert_eq!(valid, vec![false]);
}

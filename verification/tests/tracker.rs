use optical_flow_lk::binary32::Binary32;
use optical_flow_lk::{
    Feature, FlatSamples, LayoutError, OpticalFlowBuilder, SampleLayout, TrackError,
};

fn make_view(buf: &[u8], width: u32, height: u32) -> FlatSamples<'_> {
    FlatSamples {
        samples: buf,
        layout: SampleLayout {
            channels: 1,
            channel_stride: 1,
            width,
            width_stride: 1,
            height,
            height_stride: width as usize,
        },
    }
}

fn n(v: f32) -> Binary32 {
    Binary32::from_bits(v.to_bits())
}

fn f(v: Binary32) -> f32 {
    f32::from_bits(v.to_bits())
}

fn feature(x: f32, y: f32, strength: f32) -> Feature {
    Feature { x: n(x), y: n(y), strength: n(strength) }
}

fn checkerboard(width: u32, height: u32, cell: u32) -> Vec<u8> {
    let mut out = vec![0u8; (width * height) as usize];
    for y in 0..height {
        for x in 0..width {
            let on = ((x / cell) + (y / cell)) % 2 == 0;
            out[(y * width + x) as usize] = if on { 255 } else { 0 };
        }
    }
    out
}

#[test]
fn tracker_lifecycle_push_detect_push_track() {
    let (w, h) = (64u32, 64u32);
    let frame_a = checkerboard(w, h, 8);
    let frame_b: Vec<u8> = frame_a.iter().map(|p| p.wrapping_add(1)).collect();

    let mut tracker = OpticalFlowBuilder::new(w, h)
        .pyramid_levels(2)
        .window_size(5)
        .max_iterations(5)
        .feature_min_distance(4)
        .feature_quality_level(n(0.1))
        .build();

    assert_eq!(tracker.frame_count(), 0);
    assert!(tracker.features().is_empty());

    tracker.push_frame(&make_view(&frame_a, w, h)).unwrap();
    assert_eq!(tracker.frame_count(), 1);
    assert!(tracker.features().is_empty(), "push does not populate features");

    tracker.detect_features().unwrap();
    let count = tracker.features().len();
    assert!(count > 0, "checkerboard yields features");
    assert!(tracker.features().iter().all(|p| f(p.strength) >= 0.0));

    let prev_positions: Vec<(f32, f32)> =
        tracker.features().iter().map(|p| (f(p.x), f(p.y))).collect();

    tracker.push_frame(&make_view(&frame_b, w, h)).unwrap();
    assert_eq!(tracker.frame_count(), 2);
    assert_eq!(tracker.features().len(), count, "push_frame does not clear features");

    tracker.calculate_flow().unwrap();
    assert_eq!(tracker.features().len(), count);

    // For nearly-identical frames, positions should barely move.
    for ((px, py), feat) in prev_positions.iter().zip(tracker.features().iter()) {
        assert!((f(feat.x) - px).abs() < 2.0);
        assert!((f(feat.y) - py).abs() < 2.0);
    }
}

#[test]
fn tracker_detect_features_errors_before_any_push() {
    let mut tracker = OpticalFlowBuilder::new(16, 16).build();
    assert_eq!(tracker.detect_features(), Err(TrackError::NoCurrentFrame));
}

#[test]
fn tracker_calculate_flow_errors_before_two_pushes() {
    let mut tracker = OpticalFlowBuilder::new(16, 16).build();
    let frame = vec![0u8; 16 * 16];
    assert_eq!(tracker.calculate_flow(), Err(TrackError::NoPreviousFrame));

    tracker.push_frame(&make_view(&frame, 16, 16)).unwrap();
    assert_eq!(tracker.calculate_flow(), Err(TrackError::NoPreviousFrame));

    tracker.push_frame(&make_view(&frame, 16, 16)).unwrap();
    assert!(tracker.calculate_flow().is_ok());
}

#[test]
fn tracker_dimension_mismatch_error() {
    let mut tracker = OpticalFlowBuilder::new(100, 50).build();
    let img = vec![0u8; 200 * 50];
    let err = tracker.push_frame(&make_view(&img, 200, 50)).unwrap_err();
    assert_eq!(
        err,
        TrackError::DimensionMismatch { expected: (100, 50), actual: (200, 50) }
    );
}

#[test]
fn tracker_layout_error_unsupported_channels() {
    let mut tracker = OpticalFlowBuilder::new(8, 8).build();
    let data = [0u8; 8 * 8 * 3];
    let view = FlatSamples {
        samples: &data[..],
        layout: SampleLayout {
            channels: 3,
            channel_stride: 1,
            width: 8,
            width_stride: 1,
            height: 8,
            height_stride: 8,
        },
    };
    let err = tracker.push_frame(&view).unwrap_err();
    assert_eq!(err, TrackError::Layout(LayoutError::UnsupportedChannels(3)));
}

#[test]
fn tracker_layout_error_unsupported_width_stride() {
    let mut tracker = OpticalFlowBuilder::new(8, 8).build();
    let data = [0u8; 8 * 8 * 2];
    let view = FlatSamples {
        samples: &data[..],
        layout: SampleLayout {
            channels: 1,
            channel_stride: 1,
            width: 8,
            width_stride: 2,
            height: 8,
            height_stride: 16,
        },
    };
    let err = tracker.push_frame(&view).unwrap_err();
    assert_eq!(err, TrackError::Layout(LayoutError::UnsupportedWidthStride(2)));
}

#[test]
fn tracker_layout_error_overlapping_rows() {
    let mut tracker = OpticalFlowBuilder::new(8, 8).build();
    let data = [0u8; 8 * 8];
    let view = FlatSamples {
        samples: &data[..],
        layout: SampleLayout {
            channels: 1,
            channel_stride: 1,
            width: 8,
            width_stride: 1,
            height: 8,
            height_stride: 4,
        },
    };
    let err = tracker.push_frame(&view).unwrap_err();
    assert_eq!(
        err,
        TrackError::Layout(LayoutError::OverlappingRows { height_stride: 4, width: 8 })
    );
}

#[test]
fn tracker_layout_error_buffer_too_small() {
    let mut tracker = OpticalFlowBuilder::new(8, 8).build();
    let data = [0u8; 10];
    let view = FlatSamples {
        samples: &data[..],
        layout: SampleLayout {
            channels: 1,
            channel_stride: 1,
            width: 8,
            width_stride: 1,
            height: 8,
            height_stride: 8,
        },
    };
    let err = tracker.push_frame(&view).unwrap_err();
    assert_eq!(
        err,
        TrackError::Layout(LayoutError::BufferTooSmall { required: 64, actual: 10 })
    );
}

#[test]
fn tracker_accessors_return_builder_values() {
    let tracker = OpticalFlowBuilder::new(320, 240)
        .pyramid_levels(4)
        .window_size(11)
        .max_iterations(20)
        .feature_quality_level(n(0.25))
        .feature_min_distance(7)
        .max_features(123)
        .build();

    assert_eq!(tracker.dimensions(), (320, 240));
    assert_eq!(tracker.pyramid_levels(), 4);
    assert_eq!(tracker.window_size(), 11);
    assert_eq!(tracker.max_iterations(), 20);
    assert!((f(tracker.feature_quality_level()) - 0.25).abs() < 1e-6);
    assert_eq!(tracker.feature_min_distance(), 7);
    assert_eq!(tracker.max_features(), 123);
}

#[test]
fn tracker_defaults() {
    let tracker = OpticalFlowBuilder::new(32, 24).build();
    assert_eq!(tracker.dimensions(), (32, 24));
    assert_eq!(tracker.pyramid_levels(), 3);
    assert_eq!(tracker.window_size(), 21);
    assert_eq!(tracker.max_iterations(), 30);
    assert_eq!(f(tracker.feature_quality_level()), 0.4);
    assert_eq!(tracker.feature_min_distance(), 10);
    assert_eq!(tracker.max_features(), 500);
    assert_eq!(tracker.frame_count(), 0);
}

#[test]
fn tracker_detect_features_caps_at_max_features() {
    let (w, h) = (64u32, 64u32);
    let frame = checkerboard(w, h, 4);

    let mut tracker = OpticalFlowBuilder::new(w, h)
        .pyramid_levels(2)
        .feature_min_distance(2)
        .feature_quality_level(n(0.01))
        .max_features(10)
        .build();

    tracker.push_frame(&make_view(&frame, w, h)).unwrap();
    tracker.detect_features().unwrap();

    assert!(tracker.features().len() <= 10);
    assert!(!tracker.features().is_empty());
}

#[test]
fn features_mut_allows_caller_edits() {
    let mut tracker = OpticalFlowBuilder::new(16, 16).build();
    let frame = vec![0u8; 16 * 16];
    tracker.push_frame(&make_view(&frame, 16, 16)).unwrap();

    tracker.features_mut().push(feature(1.0, 2.0, 3.0));
    tracker.features_mut().push(feature(4.0, 5.0, 6.0));
    assert_eq!(tracker.features().len(), 2);

    tracker.features_mut().retain(|p| f(p.x) > 2.0);
    assert_eq!(tracker.features().len(), 1);
    assert_eq!(f(tracker.features()[0].x), 4.0);
}

#[test]
fn tracker_calculate_flow_recovers_known_translation() {
    let (w, h) = (64u32, 64u32);
    let (shift_x, shift_y) = (3i32, -2i32);

    let frame_a: Vec<u8> = (0..(w * h) as usize)
        .map(|i| {
            let x = (i as u32) % w;
            let y = (i as u32) / w;
            let stripe = (y / 3) % 4;
            let vstripe = (x / 3) % 4;
            (stripe.wrapping_mul(50) + vstripe.wrapping_mul(30)) as u8
        })
        .collect();

    let mut frame_b = vec![0u8; (w * h) as usize];
    for y in 0..h as i32 {
        for x in 0..w as i32 {
            let sx = x - shift_x;
            let sy = y - shift_y;
            if sx >= 0 && sx < w as i32 && sy >= 0 && sy < h as i32 {
                frame_b[(y as u32 * w + x as u32) as usize] =
                    frame_a[(sy as u32 * w + sx as u32) as usize];
            }
        }
    }

    let mut tracker = OpticalFlowBuilder::new(w, h)
        .pyramid_levels(2)
        .window_size(7)
        .max_iterations(20)
        .build();

    tracker.push_frame(&make_view(&frame_a, w, h)).unwrap();
    tracker.features_mut().push(feature(30.0, 30.0, 1.0));

    tracker.push_frame(&make_view(&frame_b, w, h)).unwrap();
    // push_frame does not touch features: they are still at (30, 30).
    assert_eq!(tracker.features().len(), 1);
    assert_eq!(f(tracker.features()[0].x), 30.0);

    tracker.calculate_flow().unwrap();
    assert_eq!(tracker.features().len(), 1);
    let moved = tracker.features()[0];
    let expected_x = 30.0 + shift_x as f32;
    let expected_y = 30.0 + shift_y as f32;
    assert!((f(moved.x) - expected_x).abs() < 1.0);
    assert!((f(moved.y) - expected_y).abs() < 1.0);
    // Strength preserved through tracking.
    assert_eq!(f(moved.strength), 1.0);
}

#[test]
fn a_refused_frame_changes_nothing() {
    let (w, h) = (32u32, 32u32);
    let frame_a = checkerboard(w, h, 5);
    let frame_b = checkerboard(w, h, 6);
    let build = || {
        let mut tracker = OpticalFlowBuilder::new(w, h).pyramid_levels(2).window_size(5).build();
        tracker.push_frame(&make_view(&frame_a, w, h)).unwrap();
        tracker.features_mut().push(feature(15.0, 15.0, 2.0));
        tracker
    };
    let mut plain = build();
    plain.push_frame(&make_view(&frame_b, w, h)).unwrap();
    plain.calculate_flow().unwrap();

    let mut disturbed = build();
    let wrong = vec![9u8; 10 * 10];
    assert!(disturbed.push_frame(&make_view(&wrong, 10, 10)).is_err());
    assert!(disturbed.push_frame(&make_view(&wrong, w, h)).is_err());
    assert_eq!(disturbed.frame_count(), 1);
    disturbed.push_frame(&make_view(&frame_b, w, h)).unwrap();
    disturbed.calculate_flow().unwrap();

    assert_eq!(plain.frame_count(), disturbed.frame_count());
    assert_eq!(plain.features(), disturbed.features());
}

#[test]
fn dimensions_are_checked_before_the_layout() {
    let mut tracker = OpticalFlowBuilder::new(8, 8).build();
    let data = [0u8; 4];
    let view = FlatSamples {
        samples: &data[..],
        layout: SampleLayout {
            channels: 3,
            channel_stride: 1,
            width: 9,
            width_stride: 5,
            height: 8,
            height_stride: 1,
        },
    };
    assert_eq!(
        tracker.push_frame(&view),
        Err(TrackError::DimensionMismatch { expected: (8, 8), actual: (9, 8) })
    );
}

#[test]
fn a_layout_beyond_every_buffer_is_an_error() {
    let data = [0u8; 64];
    let view = FlatSamples {
        samples: &data[..],
        layout: SampleLayout {
            channels: 1,
            channel_stride: 1,
            width: 8,
            width_stride: 1,
            height: 8,
            height_stride: usize::MAX,
        },
    };
    let mut tracker = OpticalFlowBuilder::new(8, 8).build();
    assert_eq!(
        tracker.push_frame(&view),
        Err(TrackError::Layout(LayoutError::BufferTooSmall { required: usize::MAX, actual: 64 }))
    );
    let mut other = OpticalFlowBuilder::new(8, 9).build();
    assert_eq!(
        other.push_frame(&view),
        Err(TrackError::DimensionMismatch { expected: (8, 9), actual: (8, 8) })
    );
}

#[test]
fn features_stay_between_equal_frames() {
    let (w, h) = (40u32, 36u32);
    let frame = checkerboard(w, h, 6);
    let mut padded: Vec<u8> = Vec::new();
    for row in frame.chunks(w as usize) {
        padded.extend_from_slice(row);
        padded.extend_from_slice(&[7; 5]);
    }
    let again = FlatSamples {
        samples: &padded[..],
        layout: SampleLayout {
            channels: 1,
            channel_stride: 1,
            width: w,
            width_stride: 1,
            height: h,
            height_stride: w as usize + 5,
        },
    };
    let mut tracker = OpticalFlowBuilder::new(w, h).pyramid_levels(2).window_size(7).build();
    tracker.push_frame(&make_view(&frame, w, h)).unwrap();
    tracker.detect_features().unwrap();
    assert!(!tracker.features().is_empty());
    tracker.features_mut().push(feature(1.5, 2.25, 4.0));
    tracker.features_mut().push(feature(17.3, 18.9, 5.0));
    let start = tracker.features().to_vec();
    tracker.push_frame(&again).unwrap();
    tracker.calculate_flow().unwrap();
    assert_eq!(tracker.features(), &start[..]);
    let mut valid = Vec::new();
    tracker.calculate_flow_fb(n(0.0), &mut valid).unwrap();
    assert_eq!(tracker.features(), &start[..]);
    assert_eq!(valid.len(), start.len());
    assert!(valid[start.len() - 1]);
    assert!(!valid[start.len() - 2]);
}

#[test]
fn a_padded_frame_is_the_frame_without_padding() {
    let (w, h) = (40u32, 30u32);
    let frame = checkerboard(w, h, 7);
    let mut padded: Vec<u8> = Vec::new();
    for y in 0..h as usize {
        padded.extend_from_slice(&frame[y * w as usize..(y + 1) * w as usize]);
        padded.extend_from_slice(&[99; 24]);
    }
    let view = FlatSamples {
        samples: &padded[..],
        layout: SampleLayout {
            channels: 1,
            channel_stride: 1,
            width: w,
            width_stride: 1,
            height: h,
            height_stride: w as usize + 24,
        },
    };
    let detect = |view: &FlatSamples<'_>| {
        let mut tracker = OpticalFlowBuilder::new(w, h).feature_min_distance(3).build();
        tracker.push_frame(view).unwrap();
        tracker.detect_features().unwrap();
        tracker.features().to_vec()
    };
    let found = detect(&view);
    assert!(!found.is_empty());
    assert_eq!(found, detect(&make_view(&frame, w, h)));
}

use optical_flow_lk::binary32::Binary32;
use optical_flow_lk::buffer::OpticalFlowBuilder;
use optical_flow_lk::{Feature, FlatSamples, LayoutError, SampleLayout, TrackError};

fn make_view(buf: &[u8], width: u32, height: u32) -> FlatSamples<'_> {
    FlatSamples {
        samples: buf,
        layout: SampleLayout {
            channels: 1,
            channel_stride: 1,
            width,
            width_stride: 1,
            height,
            height_stride: width as usize,
        },
    }
}

fn n(v: f32) -> Binary32 {
    Binary32::from_bits(v.to_bits())
}

fn f(v: Binary32) -> f32 {
    f32::from_bits(v.to_bits())
}

fn feature(x: f32, y: f32, strength: f32) -> Feature {
    Feature { x: n(x), y: n(y), strength: n(strength) }
}

fn checkerboard(width: u32, height: u32, cell: u32) -> Vec<u8> {
    let mut out = vec![0u8; (width * height) as usize];
    for y in 0..height {
        for x in 0..width {
            let on = ((x / cell) + (y / cell)) % 2 == 0;
            out[(y * width + x) as usize] = if on { 255 } else { 0 };
        }
    }
    out
}

#[test]
fn buffer_lifecycle_push_detect_push_track() {
    let (w, h) = (64u32, 64u32);
    let frame_a = checkerboard(w, h, 8);
    let frame_b: Vec<u8> = frame_a.iter().map(|p| p.wrapping_add(1)).collect();

    let mut buf = OpticalFlowBuilder::new(w, h)
        .pyramid_levels(2)
        .window_size(5)
        .max_iterations(5)
        .feature_min_distance(4)
        .feature_quality_level(n(0.1))
        .build();

    assert!(!buf.has_current_frame());
    assert!(!buf.has_previous_frame());
    assert!(buf.current_features().is_empty());
    assert!(buf.previous_features().is_empty());

    buf.push_frame(&make_view(&frame_a, w, h)).unwrap();
    assert!(buf.has_current_frame());
    assert!(buf.current_features().is_empty(), "push clears current_features");

    buf.detect_features().unwrap();
    let count = buf.current_features().len();
    assert!(count > 0, "checkerboard yields features");
    // Strength should be non-negative.
    assert!(buf.current_features().iter().all(|p| f(p.strength) >= 0.0));

    buf.push_frame(&make_view(&frame_b, w, h)).unwrap();
    assert!(buf.has_previous_frame());
    assert_eq!(
        buf.previous_features().len(),
        count,
        "swap preserves features attached to old curr"
    );
    assert!(buf.current_features().is_empty(), "new curr starts empty");

    buf.calculate_flow().unwrap();
    assert_eq!(buf.current_features().len(), count);

    // Strength is preserved through tracking.
    for (prev, curr) in buf.previous_features().iter().zip(buf.current_features().iter()) {
        assert_eq!(prev.strength, curr.strength);
    }
}

#[test]
fn push_frame_clears_stale_curr_features() {
    let (w, h) = (16u32, 16u32);
    let frame = vec![0u8; (w * h) as usize];

    let mut buf = OpticalFlowBuilder::new(w, h).build();
    buf.push_frame(&make_view(&frame, w, h)).unwrap();
    buf.push_frame(&make_view(&frame, w, h)).unwrap();
    // After two pushes with no detect/track, both feature lists must be empty.
    assert!(buf.current_features().is_empty());
    assert!(buf.previous_features().is_empty());
}

#[test]
fn buffer_detect_features_errors_before_any_push() {
    let mut buf = OpticalFlowBuilder::new(16, 16).build();
    assert_eq!(buf.detect_features(), Err(TrackError::NoCurrentFrame));
}

#[test]
fn buffer_calculate_flow_errors_before_two_pushes() {
    let mut buf = OpticalFlowBuilder::new(16, 16).build();
    let frame = vec![0u8; 16 * 16];
    assert_eq!(buf.calculate_flow(), Err(TrackError::NoPreviousFrame));

    buf.push_frame(&make_view(&frame, 16, 16)).unwrap();
    assert_eq!(buf.calculate_flow(), Err(TrackError::NoPreviousFrame));

    buf.push_frame(&make_view(&frame, 16, 16)).unwrap();
    assert!(buf.calculate_flow().is_ok());
}

#[test]
fn buffer_dimension_mismatch_error() {
    let mut buf = OpticalFlowBuilder::new(100, 50).build();
    let img = vec![0u8; 200 * 50];
    let err = buf.push_frame(&make_view(&img, 200, 50)).unwrap_err();
    assert_eq!(
        err,
        TrackError::DimensionMismatch { expected: (100, 50), actual: (200, 50) }
    );
}

#[test]
fn buffer_layout_error_unsupported_channels() {
    let mut buf = OpticalFlowBuilder::new(8, 8).build();
    let data = [0u8; 8 * 8 * 3];
    let view = FlatSamples {
        samples: &data[..],
        layout: SampleLayout {
            channels: 3,
            channel_stride: 1,
            width: 8,
            width_stride: 1,
            height: 8,
            height_stride: 8,
        },
    };
    let err = buf.push_frame(&view).unwrap_err();
    assert_eq!(err, TrackError::Layout(LayoutError::UnsupportedChannels(3)));
}

#[test]
fn buffer_layout_error_unsupported_width_stride() {
    let mut buf = OpticalFlowBuilder::new(8, 8).build();
    let data = [0u8; 8 * 8 * 2];
    let view = FlatSamples {
        samples: &data[..],
        layout: SampleLayout {
            channels: 1,
            channel_stride: 1,
            width: 8,
            width_stride: 2,
            height: 8,
            height_stride: 16,
        },
    };
    let err = buf.push_frame(&view).unwrap_err();
    assert_eq!(err, TrackError::Layout(LayoutError::UnsupportedWidthStride(2)));
}

#[test]
fn buffer_layout_error_overlapping_rows() {
    let mut buf = OpticalFlowBuilder::new(8, 8).build();
    let data = [0u8; 8 * 8];
    let view = FlatSamples {
        samples: &data[..],
        layout: SampleLayout {
            channels: 1,
            channel_stride: 1,
            width: 8,
            width_stride: 1,
            height: 8,
            height_stride: 4,
        },
    };
    let err = buf.push_frame(&view).unwrap_err();
    assert_eq!(
        err,
        TrackError::Layout(LayoutError::OverlappingRows { height_stride: 4, width: 8 })
    );
}

#[test]
fn buffer_layout_error_buffer_too_small() {
    let mut buf = OpticalFlowBuilder::new(8, 8).build();
    let data = [0u8; 10];
    let view = FlatSamples {
        samples: &data[..],
        layout: SampleLayout {
            channels: 1,
            channel_stride: 1,
            width: 8,
            width_stride: 1,
            height: 8,
            height_stride: 8,
        },
    };
    let err = buf.push_frame(&view).unwrap_err();
    assert_eq!(
        err,
        TrackError::Layout(LayoutError::BufferTooSmall { required: 64, actual: 10 })
    );
}

#[test]
fn buffer_accessors_return_builder_values() {
    let buf = OpticalFlowBuilder::new(320, 240)
        .pyramid_levels(4)
        .window_size(11)
        .max_iterations(20)
        .feature_quality_level(n(0.25))
        .feature_min_distance(7)
        .max_features(123)
        .build();

    assert_eq!(buf.dimensions(), (320, 240));
    assert_eq!(buf.pyramid_levels(), 4);
    assert_eq!(buf.window_size(), 11);
    assert_eq!(buf.max_iterations(), 20);
    assert!((f(buf.feature_quality_level()) - 0.25).abs() < 1e-6);
    assert_eq!(buf.feature_min_distance(), 7);
    assert_eq!(buf.max_features(), 123);
}

#[test]
fn buffer_detect_features_caps_at_max_features() {
    let (w, h) = (64u32, 64u32);
    let frame = checkerboard(w, h, 4);

    let mut buf = OpticalFlowBuilder::new(w, h)
        .pyramid_levels(2)
        .feature_min_distance(2)
        .feature_quality_level(n(0.01))
        .max_features(10)
        .build();

    buf.push_frame(&make_view(&frame, w, h)).unwrap();
    buf.detect_features().unwrap();

    assert!(
        buf.current_features().len() <= 10,
        "detect_features should respect max_features (got {})",
        buf.current_features().len()
    );
    // With a fine-grained checkerboard we expect at least a few features.
    assert!(!buf.current_features().is_empty());
}

#[test]
fn current_features_mut_allows_caller_edits() {
    let mut buf = OpticalFlowBuilder::new(16, 16).build();
    let frame = vec![0u8; 16 * 16];
    buf.push_frame(&make_view(&frame, 16, 16)).unwrap();

    buf.current_features_mut().push(feature(1.0, 2.0, 3.0));
    buf.current_features_mut().push(feature(4.0, 5.0, 6.0));
    assert_eq!(buf.current_features().len(), 2);

    buf.current_features_mut().retain(|p| f(p.x) > 2.0);
    assert_eq!(buf.current_features().len(), 1);
    assert_eq!(f(buf.current_features()[0].x), 4.0);
}

#[test]
fn buffer_calculate_flow_recovers_known_translation() {
    let (w, h) = (64u32, 64u32);
    let (shift_x, shift_y) = (3i32, -2i32);

    let frame_a: Vec<u8> = (0..(w * h) as usize)
        .map(|i| {
            let x = (i as u32) % w;
            let y = (i as u32) / w;
            // Horizontal stripes and vertical stripes interleaved.
            let stripe = (y / 3) % 4;
            let vstripe = (x / 3) % 4;
            (stripe.wrapping_mul(50) + vstripe.wrapping_mul(30)) as u8
        })
        .collect();

    let mut frame_b = vec![0u8; (w * h) as usize];
    for y in 0..h as i32 {
        for x in 0..w as i32 {
            let sx = x - shift_x;
            let sy = y - shift_y;
            if sx >= 0 && sx < w as i32 && sy >= 0 && sy < h as i32 {
                frame_b[(y as u32 * w + x as u32) as usize] =
                    frame_a[(sy as u32 * w + sx as u32) as usize];
            }
        }
    }

    let mut buf = OpticalFlowBuilder::new(w, h)
        .pyramid_levels(2)
        .window_size(7)
        .max_iterations(20)
        .build();

    buf.push_frame(&make_view(&frame_a, w, h)).unwrap();
    buf.current_features_mut().push(feature(30.0, 30.0, 1.0));

    buf.push_frame(&make_view(&frame_b, w, h)).unwrap();
    // The seeded feature is now among those of the previous frame.
    assert_eq!(buf.previous_features().len(), 1);
    assert_eq!(buf.current_features().len(), 0);

    buf.calculate_flow().unwrap();

    assert_eq!(buf.current_features().len(), 1);
    let moved = buf.current_features()[0];
    let expected_x = 30.0 + shift_x as f32;
    let expected_y = 30.0 + shift_y as f32;
    let err_x = (f(moved.x) - expected_x).abs();
    let err_y = (f(moved.y) - expected_y).abs();
    assert!(
        err_x < 1.0 && err_y < 1.0,
        "tracked ({}, {}) more than 1 px off expected ({}, {})",
        f(moved.x),
        f(moved.y),
        expected_x,
        expected_y,
    );
    // Strength is preserved.
    assert_eq!(f(moved.strength), 1.0);
    // The features of the previous frame stay where they are.
    assert_eq!(buf.previous_features()[0], feature(30.0, 30.0, 1.0));
}

#[test]
fn previous_features_mut_seeds_what_calculate_flow_tracks() {
    let (w, h) = (32u32, 32u32);
    let frame_a = vec![128u8; (w * h) as usize];
    let frame_b: Vec<u8> = frame_a.iter().map(|p| p.wrapping_add(1)).collect();

    let mut buf = OpticalFlowBuilder::new(w, h)
        .pyramid_levels(2)
        .window_size(5)
        .max_iterations(5)
        .build();

    buf.push_frame(&make_view(&frame_a, w, h)).unwrap();
    buf.push_frame(&make_view(&frame_b, w, h)).unwrap();
    // After two pushes both feature lists are empty.
    assert!(buf.previous_features().is_empty());

    buf.previous_features_mut().push(feature(10.0, 10.0, 1.0));
    buf.previous_features_mut().push(feature(20.0, 20.0, 2.0));

    buf.calculate_flow().unwrap();
    assert_eq!(buf.current_features().len(), 2);
    // Strength preserved from the manually seeded inputs.
    assert_eq!(f(buf.current_features()[0].strength), 1.0);
    assert_eq!(f(buf.current_features()[1].strength), 2.0);
}

#[test]
fn following_replaces_the_features_of_the_current_frame() {
    let (w, h) = (32u32, 32u32);
    let frame = checkerboard(w, h, 5);
    let mut buf = OpticalFlowBuilder::new(w, h).pyramid_levels(2).window_size(5).build();
    buf.push_frame(&make_view(&frame, w, h)).unwrap();
    buf.current_features_mut().push(feature(15.0, 15.0, 4.0));
    buf.push_frame(&make_view(&frame, w, h)).unwrap();
    buf.current_features_mut().push(feature(1.0, 1.0, 9.0));
    buf.current_features_mut().push(feature(2.0, 2.0, 9.0));
    buf.calculate_flow().unwrap();
    assert_eq!(buf.current_features(), &[feature(15.0, 15.0, 4.0)]);
}

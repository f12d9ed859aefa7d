//! A pipeline put together by hand.

use optical_flow_lk::binary32::Binary32;
use optical_flow_lk::buffers::{
    build_pyramid, detect_features, track, FeaturesBuffer, LkBuffer, PyramidBuffer,
};
use optical_flow_lk::raster::GrayImage;
use optical_flow_lk::{Feature, LayoutError, OpticalFlowBuilder, TrackError};

fn n(v: f32) -> Binary32 {
    Binary32::from_bits(v.to_bits())
}

fn textured(width: u32, height: u32, shift: u32) -> GrayImage {
    let mut img = GrayImage::new(width, height);
    for y in 0..height {
        for x in 0..width {
            let u = x + shift;
            let v = ((u * 29 + y * 43 + (u ^ y) * 3) & 0xff) as u8;
            img.put_pixel(x, y, v);
        }
    }
    img
}

#[test]
fn a_pipeline_by_hand_agrees_with_the_tracker() {
    let (w, h, levels, window, max_features) = (64u32, 48u32, 3usize, 9usize, 40usize);
    let frames = [textured(w, h, 0), textured(w, h, 1), textured(w, h, 2)];

    let mut prev_pyr = PyramidBuffer::with_capacity(w, h, levels);
    let mut curr_pyr = PyramidBuffer::with_capacity(w, h, levels);
    let mut lk = LkBuffer::with_capacity(w, h, levels, window, max_features);
    let mut fb = FeaturesBuffer::with_capacity(w, h, 5, max_features);
    let mut features: Vec<Feature> = Vec::with_capacity(max_features);

    let mut tracker = OpticalFlowBuilder::new(w, h)
        .pyramid_levels(levels)
        .window_size(window)
        .max_iterations(6)
        .feature_quality_level(n(0.1))
        .feature_min_distance(5)
        .max_features(max_features)
        .build();

    build_pyramid(&mut curr_pyr, &frames[0].as_flat_samples()).unwrap();
    detect_features(&mut fb, &curr_pyr, n(0.1), 5, max_features, &mut features);
    tracker.push_frame(&frames[0].as_flat_samples()).unwrap();
    tracker.detect_features().unwrap();
    assert!(!features.is_empty());
    assert_eq!(features.as_slice(), tracker.features());

    for frame in &frames[1..] {
        std::mem::swap(&mut prev_pyr, &mut curr_pyr);
        build_pyramid(&mut curr_pyr, &frame.as_flat_samples()).unwrap();
        track(&mut lk, &prev_pyr, &curr_pyr, &mut features, 6);
        tracker.push_frame(&frame.as_flat_samples()).unwrap();
        tracker.calculate_flow().unwrap();
        assert_eq!(features.as_slice(), tracker.features());
    }
}

#[test]
fn a_frame_of_other_dimensions_leaves_the_pyramid() {
    let mut buf = PyramidBuffer::with_capacity(16, 12, 2);
    build_pyramid(&mut buf, &textured(16, 12, 0).as_flat_samples()).unwrap();
    let before: Vec<u8> = buf.levels()[0].as_raw().clone();
    assert_eq!(
        build_pyramid(&mut buf, &textured(12, 16, 0).as_flat_samples()),
        Err(TrackError::DimensionMismatch { expected: (16, 12), actual: (12, 16) })
    );
    assert_eq!(buf.levels()[0].as_raw(), &before);
}

#[test]
fn a_frame_with_a_bad_layout_leaves_the_pyramid() {
    let mut buf = PyramidBuffer::with_capacity(16, 12, 2);
    let frame = textured(16, 12, 0);
    let mut view = frame.as_flat_samples();
    view.layout.height_stride = 15;
    assert_eq!(
        build_pyramid(&mut buf, &view),
        Err(TrackError::Layout(LayoutError::OverlappingRows { height_stride: 15, width: 16 }))
    );
    assert!(buf.levels()[0].as_raw().iter().all(|v| *v == 0));
}

use optical_flow_lk::binary32::Binary32;
use optical_flow_lk::generic::{build_pyramid, good_features_to_track};
use optical_flow_lk::raster::GrayImage;
use optical_flow_lk::validate::validate_layout;
use optical_flow_lk::{FlatSamples, LayoutError, SampleLayout};

fn make_layout(width: u32, height: u32, height_stride: usize) -> SampleLayout {
    SampleLayout { channels: 1, channel_stride: 1, width, width_stride: 1, height, height_stride }
}

fn make_valid_samples(width: u32, height: u32) -> Vec<u8> {
    vec![42u8; (width * height) as usize]
}

fn quality(q: f32) -> Binary32 {
    Binary32::from_bits(q.to_bits())
}

#[test]
fn build_pyramid_accepts_valid_input() {
    let buf = make_valid_samples(8, 8);
    let fs = FlatSamples { samples: &buf[..], layout: make_layout(8, 8, 8) };
    let pyr = match build_pyramid(&fs, 3) {
        Ok(pyr) => pyr,
        Err(_) => panic!("valid input must succeed"),
    };
    assert_eq!(pyr.len(), 3);
    assert_eq!(pyr[0].dimensions(), (8, 8));
}

#[test]
fn good_features_to_track_accepts_valid_input() {
    let buf = make_valid_samples(16, 16);
    let fs = FlatSamples { samples: &buf[..], layout: make_layout(16, 16, 16) };
    let _ = good_features_to_track(&fs, quality(0.1), 1).expect("valid input must succeed");
}

#[test]
fn build_pyramid_rejects_multi_channel() {
    let buf = make_valid_samples(8, 8);
    let mut layout = make_layout(8, 8, 8);
    layout.channels = 3;
    let fs = FlatSamples { samples: &buf[..], layout };
    assert_eq!(build_pyramid(&fs, 2).err(), Some(LayoutError::UnsupportedChannels(3)));
}

#[test]
fn build_pyramid_rejects_non_unit_width_stride() {
    let buf = make_valid_samples(8, 8);
    let mut layout = make_layout(8, 8, 8);
    layout.width_stride = 3;
    let fs = FlatSamples { samples: &buf[..], layout };
    assert_eq!(build_pyramid(&fs, 2).err(), Some(LayoutError::UnsupportedWidthStride(3)));
}

#[test]
fn build_pyramid_rejects_overlapping_rows() {
    let buf = make_valid_samples(8, 8);
    let layout = make_layout(8, 8, 4);
    let fs = FlatSamples { samples: &buf[..], layout };
    assert_eq!(
        build_pyramid(&fs, 2).err(),
        Some(LayoutError::OverlappingRows { height_stride: 4, width: 8 })
    );
}

#[test]
fn build_pyramid_rejects_too_small_buffer() {
    let buf = vec![0u8; 10];
    let layout = make_layout(8, 8, 8);
    let fs = FlatSamples { samples: &buf[..], layout };
    // required = (8 - 1) * 8 + 8 = 64, actual = 10
    assert_eq!(
        build_pyramid(&fs, 2).err(),
        Some(LayoutError::BufferTooSmall { required: 64, actual: 10 })
    );
}

#[test]
fn good_features_rejects_multi_channel() {
    let buf = make_valid_samples(8, 8);
    let mut layout = make_layout(8, 8, 8);
    layout.channels = 4;
    let fs = FlatSamples { samples: &buf[..], layout };
    assert_eq!(
        good_features_to_track(&fs, quality(0.1), 1),
        Err(LayoutError::UnsupportedChannels(4))
    );
}

#[test]
fn good_features_rejects_non_unit_width_stride() {
    let buf = make_valid_samples(8, 8);
    let mut layout = make_layout(8, 8, 8);
    layout.width_stride = 2;
    let fs = FlatSamples { samples: &buf[..], layout };
    assert_eq!(
        good_features_to_track(&fs, quality(0.1), 1),
        Err(LayoutError::UnsupportedWidthStride(2))
    );
}

#[test]
fn good_features_rejects_overlapping_rows() {
    let buf = make_valid_samples(8, 8);
    let layout = make_layout(8, 8, 7);
    let fs = FlatSamples { samples: &buf[..], layout };
    assert_eq!(
        good_features_to_track(&fs, quality(0.1), 1),
        Err(LayoutError::OverlappingRows { height_stride: 7, width: 8 })
    );
}

#[test]
fn good_features_rejects_too_small_buffer() {
    let buf = vec![0u8; 5];
    let layout = make_layout(8, 8, 8);
    let fs = FlatSamples { samples: &buf[..], layout };
    assert_eq!(
        good_features_to_track(&fs, quality(0.1), 1),
        Err(LayoutError::BufferTooSmall { required: 64, actual: 5 })
    );
}

#[test]
fn the_last_row_may_end_at_its_last_pixel() {
    // Rows of 4 in a stride of 6: (3 - 1) * 6 + 4 = 16 samples.
    let buf = vec![7u8; 16];
    let fs = FlatSamples { samples: &buf[..], layout: make_layout(4, 3, 6) };
    assert!(build_pyramid(&fs, 1).is_ok());
    let fs = FlatSamples { samples: &buf[..15], layout: make_layout(4, 3, 6) };
    assert_eq!(
        build_pyramid(&fs, 1).err(),
        Some(LayoutError::BufferTooSmall { required: 16, actual: 15 })
    );
}

#[test]
fn a_layout_that_ends_beyond_every_buffer_is_refused() {
    let buf = vec![0u8; 16];
    let refused = || LayoutError::BufferTooSmall { required: usize::MAX, actual: 16 };
    for stride in [usize::MAX, usize::MAX / 2, usize::MAX / 3] {
        let fs = FlatSamples { samples: &buf[..], layout: make_layout(4, 4, stride) };
        assert_eq!(validate_layout(&fs), Err(refused()));
        assert_eq!(build_pyramid(&fs, 2).err(), Some(refused()));
        assert_eq!(good_features_to_track(&fs, quality(0.1), 1), Err(refused()));
    }
    // The largest end that can be told.
    let stride = (usize::MAX - 4) / 3;
    let fs = FlatSamples { samples: &buf[..], layout: make_layout(4, 4, stride) };
    assert_eq!(
        validate_layout(&fs),
        Err(LayoutError::BufferTooSmall { required: 3 * stride + 4, actual: 16 })
    );
}

#[test]
fn an_image_without_pixels_is_no_error() {
    let fs = FlatSamples { samples: &[], layout: make_layout(0, 0, 0) };
    assert_eq!(good_features_to_track(&fs, quality(0.1), 1), Ok(Vec::new()));
    let fs = FlatSamples { samples: &[], layout: make_layout(5, 0, 5) };
    assert_eq!(good_features_to_track(&fs, quality(0.1), 1), Ok(Vec::new()));
    assert_eq!(build_pyramid(&fs, 2).map(|levels| levels.len()).ok(), Some(1));
}

#[test]
fn points_of_a_view_are_those_of_the_image() {
    let (w, h) = (40u32, 30u32);
    let mut packed: Vec<u8> = Vec::new();
    let mut padded: Vec<u8> = Vec::new();
    for y in 0..h {
        for x in 0..w {
            packed.push(((x * 47 + y * 31 + (x ^ y) * 5 + (x * y) % 13) & 0xff) as u8);
        }
        padded.extend_from_slice(&packed[(y * w) as usize..]);
        padded.extend_from_slice(&[255; 9]);
    }
    let fs = FlatSamples { samples: &padded[..], layout: make_layout(w, h, w as usize + 9) };
    let found = good_features_to_track(&fs, quality(0.05), 4).unwrap();
    assert!(found.len() > 5);
    assert!(found.iter().all(|p| p.0 < w && p.1 < h));
    let image = GrayImage::from_raw(w, h, packed).unwrap();
    assert_eq!(found, optical_flow_lk::good_features_to_track(&image, quality(0.05), 4));
}

#[test]
fn gaps_between_rows_are_left_out() {
    let buf: Vec<u8> = vec![1, 2, 3, 200, 201, 4, 5, 6, 202, 203, 7, 8, 9];
    let fs = FlatSamples { samples: &buf[..], layout: make_layout(3, 3, 5) };
    let levels = match build_pyramid(&fs, 1) {
        Ok(levels) => levels,
        Err(_) => panic!("a padded view is valid"),
    };
    assert_eq!(levels[0].as_raw(), &vec![1, 2, 3, 4, 5, 6, 7, 8, 9]);
}

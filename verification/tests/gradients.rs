use optical_flow_lk::raster::{GradPlane, GrayImage};
use optical_flow_lk::utils::box_filter_3x3::box_filter_3x3_in_place;
use optical_flow_lk::utils::fast_gradients::{
    compute_gradients_into, compute_gradients_into_no_zero, compute_gradients_manual_into,
    HORIZONTAL_SCHARR_3X3, VERTICAL_SCHARR_3X3,
};
use optical_flow_lk::{FlatSamples, SampleLayout};

fn make_test_image(width: u32, height: u32) -> GrayImage {
    let mut img = GrayImage::new(width, height);
    for y in 0..height {
        for x in 0..width {
            let v = ((x * 31 + y * 17 + (x ^ y) * 13) & 0xff) as u8;
            img.put_pixel(x, y, v);
        }
    }
    img
}

#[test]
fn selected_gradients_match_manual_reference() {
    let img = make_test_image(128, 96);
    let fs = img.as_flat_samples();

    let mut expected_x = GradPlane::new(128, 96);
    let mut expected_y = GradPlane::new(128, 96);
    compute_gradients_manual_into(
        &fs,
        &HORIZONTAL_SCHARR_3X3,
        &VERTICAL_SCHARR_3X3,
        &mut expected_x,
        &mut expected_y,
    );

    let mut actual_x = GradPlane::new(128, 96);
    let mut actual_y = GradPlane::new(128, 96);
    compute_gradients_into(&fs, &mut actual_x, &mut actual_y);

    assert_eq!(expected_x.dimensions(), actual_x.dimensions());
    assert_eq!(expected_y.dimensions(), actual_y.dimensions());
    assert_eq!(expected_x.as_raw(), actual_x.as_raw(), "horizontal gradients differ");
    assert_eq!(expected_y.as_raw(), actual_y.as_raw(), "vertical gradients differ");
}

#[test]
fn tiny_images_return_zero_gradients() {
    for (width, height) in [(0, 0), (1, 1), (2, 2), (2, 5), (5, 2)] {
        let img = GrayImage::new(width, height);
        let fs = img.as_flat_samples();
        let mut gx = GradPlane::new(width, height);
        let mut gy = GradPlane::new(width, height);
        compute_gradients_into(&fs, &mut gx, &mut gy);

        assert_eq!(gx.dimensions(), (width, height));
        assert_eq!(gy.dimensions(), (width, height));
        assert!(gx.as_raw().iter().all(|p| *p == 0));
        assert!(gy.as_raw().iter().all(|p| *p == 0));
    }
}

#[test]
fn gradient_of_a_single_bright_pixel() {
    let mut img = GrayImage::new(5, 5);
    img.put_pixel(2, 2, 100);
    let mut gx = GradPlane::new(5, 5);
    let mut gy = GradPlane::new(5, 5);
    compute_gradients_into(&img.as_flat_samples(), &mut gx, &mut gy);
    let expected_x: Vec<i16> = vec![
        0, 0, 0, 0, 0, //
        0, 300, 0, -300, 0, //
        0, 1000, 0, -1000, 0, //
        0, 300, 0, -300, 0, //
        0, 0, 0, 0, 0,
    ];
    let expected_y: Vec<i16> = vec![
        0, 0, 0, 0, 0, //
        0, 300, 1000, 300, 0, //
        0, 0, 0, 0, 0, //
        0, -300, -1000, -300, 0, //
        0, 0, 0, 0, 0,
    ];
    assert_eq!(gx.as_raw(), &expected_x);
    assert_eq!(gy.as_raw(), &expected_y);
}

#[test]
fn gradients_of_a_strided_view_are_those_of_the_part() {
    let big = make_test_image(40, 30);
    let (left, top, w, h) = (7usize, 5usize, 20u32, 15u32);
    let mut part = GrayImage::new(w, h);
    for y in 0..h {
        for x in 0..w {
            part.put_pixel(x, y, big.get_pixel(x + left as u32, y + top as u32));
        }
    }
    let view = FlatSamples {
        samples: &big.as_raw()[top * 40 + left..],
        layout: SampleLayout {
            channels: 1,
            channel_stride: 1,
            width: w,
            width_stride: 1,
            height: h,
            height_stride: 40,
        },
    };
    let mut from_view = (GradPlane::new(w, h), GradPlane::new(w, h));
    compute_gradients_into(&view, &mut from_view.0, &mut from_view.1);
    let mut from_part = (GradPlane::new(w, h), GradPlane::new(w, h));
    compute_gradients_into(&part.as_flat_samples(), &mut from_part.0, &mut from_part.1);
    assert_eq!(from_view.0.as_raw(), from_part.0.as_raw());
    assert_eq!(from_view.1.as_raw(), from_part.1.as_raw());
}

#[test]
fn gradients_replace_those_of_an_earlier_image() {
    let first = make_test_image(20, 20);
    let mut second = GrayImage::new(20, 20);
    second.put_pixel(10, 10, 200);

    let mut reused = (GradPlane::new(20, 20), GradPlane::new(20, 20));
    compute_gradients_into_no_zero(&first.as_flat_samples(), &mut reused.0, &mut reused.1);
    compute_gradients_into_no_zero(&second.as_flat_samples(), &mut reused.0, &mut reused.1);

    let mut fresh = (GradPlane::new(20, 20), GradPlane::new(20, 20));
    compute_gradients_into(&second.as_flat_samples(), &mut fresh.0, &mut fresh.1);
    assert_eq!(reused.0.as_raw(), fresh.0.as_raw());
    assert_eq!(reused.1.as_raw(), fresh.1.as_raw());
}

#[test]
fn other_kernels_are_truncated_to_sixteen_bits() {
    let mut img = GrayImage::new(3, 3);
    img.put_pixel(1, 1, 200);
    let mut gx = GradPlane::new(3, 3);
    let mut gy = GradPlane::new(3, 3);
    let centre = [0, 0, 0, 0, 400, 0, 0, 0, 0];
    let negative = [0, 0, 0, 0, -1, 0, 0, 0, 0];
    compute_gradients_manual_into(&img.as_flat_samples(), &centre, &negative, &mut gx, &mut gy);
    assert_eq!(gx.as_raw()[4], 80_000i32 as i16);
    assert_eq!(gy.as_raw()[4], -200);
}

#[test]
fn box_filter_averages_with_replicated_border() {
    // A horizontal ramp with gradients of both signs.
    let mut img = GrayImage::new(5, 3);
    img.put_pixel(2, 1, 9);
    let mut gx = GradPlane::new(5, 3);
    let mut gy = GradPlane::new(5, 3);
    compute_gradients_into(&img.as_flat_samples(), &mut gx, &mut gy);
    let before: Vec<i16> = vec![0, 0, 0, 0, 0, 0, 90, 0, -90, 0, 0, 0, 0, 0, 0];
    assert_eq!(gx.as_raw(), &before);
    let mut scratch: Vec<i16> = Vec::new();
    box_filter_3x3_in_place(&mut gx, &mut scratch);
    let after: Vec<i16> = vec![10, 10, 0, -10, -10, 10, 10, 0, -10, -10, 10, 10, 0, -10, -10];
    assert_eq!(gx.as_raw(), &after);
}

#[test]
fn box_filter_rounds_toward_zero() {
    let mut img = GrayImage::new(5, 3);
    img.put_pixel(2, 1, 10);
    let mut gx = GradPlane::new(5, 3);
    let mut gy = GradPlane::new(5, 3);
    compute_gradients_into(&img.as_flat_samples(), &mut gx, &mut gy);
    let mut scratch: Vec<i16> = Vec::new();
    box_filter_3x3_in_place(&mut gx, &mut scratch);
    // 100 / 9 and -100 / 9.
    assert_eq!(gx.as_raw()[5], 11);
    assert_eq!(gx.as_raw()[9], -11);
}

#[test]
fn box_filter_keeps_a_constant_plane() {
    let mut plane = GradPlane::new(6, 4);
    let mut scratch: Vec<i16> = Vec::new();
    box_filter_3x3_in_place(&mut plane, &mut scratch);
    assert!(plane.as_raw().iter().all(|v| *v == 0));
    assert_eq!(plane.dimensions(), (6, 4));
}

#[test]
fn gradients_do_not_depend_on_what_the_planes_held() {
    let img = make_test_image(12, 9);
    let mut gx = GradPlane::new(12, 9);
    let mut gy = GradPlane::new(12, 9);
    compute_gradients_into(&img.as_flat_samples(), &mut gx, &mut gy);
    let (clean_x, clean_y) = (gx.as_raw().clone(), gy.as_raw().clone());
    // The filter leaves values on the border.
    let mut scratch: Vec<i16> = Vec::new();
    box_filter_3x3_in_place(&mut gx, &mut scratch);
    box_filter_3x3_in_place(&mut gy, &mut scratch);
    assert!(gx.as_raw()[..12].iter().any(|v| *v != 0));
    compute_gradients_into(&img.as_flat_samples(), &mut gx, &mut gy);
    assert_eq!(gx.as_raw(), &clean_x);
    assert_eq!(gy.as_raw(), &clean_y);
}

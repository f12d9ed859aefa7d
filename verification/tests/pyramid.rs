use optical_flow_lk::build_pyramid;
use optical_flow_lk::buffers::PyramidBuffer;
use optical_flow_lk::pyramid::pyramid_dims;
use optical_flow_lk::raster::GrayImage;
use optical_flow_lk::utils::fast_gradients::compute_gradients_into;
use optical_flow_lk::raster::GradPlane;

fn textured(width: u32, height: u32) -> GrayImage {
    let mut img = GrayImage::new(width, height);
    for y in 0..height {
        for x in 0..width {
            img.put_pixel(x, y, ((x * 41 + y * 17 + (x ^ y) * 7) & 0xff) as u8);
        }
    }
    img
}

#[test]
fn dimensions_halve() {
    assert_eq!(pyramid_dims(64, 48, 3), vec![(64, 48), (32, 24), (16, 12)]);
    assert_eq!(pyramid_dims(101, 53, 4), vec![(101, 53), (50, 26), (25, 13), (12, 6)]);
    assert_eq!(pyramid_dims(8, 8, 1), vec![(8, 8)]);
}

#[test]
fn no_levels_were_asked_for() {
    assert_eq!(pyramid_dims(8, 8, 0), Vec::new());
}

#[test]
fn halving_stops_before_a_side_falls_below_two() {
    assert_eq!(pyramid_dims(8, 8, 10), vec![(8, 8), (4, 4), (2, 2)]);
    assert_eq!(pyramid_dims(100, 5, 10), vec![(100, 5), (50, 2)]);
    assert_eq!(pyramid_dims(5, 100, 10), vec![(5, 100), (2, 50)]);
    assert_eq!(pyramid_dims(3, 3, 2), vec![(3, 3)]);
}

#[test]
fn the_first_level_is_there_whatever_its_size() {
    assert_eq!(pyramid_dims(1, 1, 3), vec![(1, 1)]);
    assert_eq!(pyramid_dims(0, 0, 3), vec![(0, 0)]);
}

#[test]
fn levels_average_blocks_of_four() {
    let raw: Vec<u8> = vec![
        1, 3, 255, 255, //
        5, 8, 255, 254, //
        0, 0, 10, 20, //
        0, 3, 30, 43,
    ];
    let img = GrayImage::from_raw(4, 4, raw.clone()).unwrap();
    let levels = build_pyramid(&img, 2);
    assert_eq!(levels.len(), 2);
    assert_eq!(levels[0].as_raw(), &raw);
    assert_eq!(levels[1].dimensions(), (2, 2));
    assert_eq!(levels[1].as_raw(), &vec![4, 254, 0, 25]);
}

#[test]
fn an_odd_column_and_row_are_left_out() {
    let img = textured(9, 7);
    let levels = build_pyramid(&img, 2);
    assert_eq!(levels[1].dimensions(), (4, 3));
    for y in 0..3u32 {
        for x in 0..4u32 {
            let sum = img.get_pixel(2 * x, 2 * y) as u32
                + img.get_pixel(2 * x + 1, 2 * y) as u32
                + img.get_pixel(2 * x, 2 * y + 1) as u32
                + img.get_pixel(2 * x + 1, 2 * y + 1) as u32;
            assert_eq!(levels[1].get_pixel(x, y) as u32, sum / 4);
        }
    }
}

#[test]
fn samples_after_the_last_row_are_ignored() {
    let img = GrayImage::from_raw(2, 2, vec![1, 2, 3, 4, 99, 98]).unwrap();
    let levels = build_pyramid(&img, 1);
    assert_eq!(levels[0].as_raw(), &vec![1, 2, 3, 4]);
}

#[test]
fn too_few_samples_make_no_image() {
    assert!(GrayImage::from_raw(3, 2, vec![0; 5]).is_none());
    assert!(GrayImage::from_raw(3, 2, vec![0; 6]).is_some());
}

#[test]
fn a_new_buffer_is_black() {
    let buf = PyramidBuffer::with_capacity(8, 8, 3);
    assert_eq!(buf.levels().len(), 3);
    for level in buf.levels() {
        assert!(level.as_raw().iter().all(|v| *v == 0));
    }
}

#[test]
fn gradients_belong_to_the_levels() {
    let mut buf = PyramidBuffer::with_capacity(40, 30, 3);
    buf.build_into(&textured(40, 30).as_flat_samples());
    buf.build_into(&GrayImage::new(40, 30).as_flat_samples());
    let img = textured(40, 30);
    buf.build_into(&img.as_flat_samples());
    for level in 0..buf.levels().len() {
        let (w, h) = buf.levels()[level].dimensions();
        let mut gx = GradPlane::new(w, h);
        let mut gy = GradPlane::new(w, h);
        compute_gradients_into(&buf.levels()[level].as_flat_samples(), &mut gx, &mut gy);
        let (cached_x, cached_y) = buf.grad_planes(level);
        assert_eq!(cached_x.as_raw(), gx.as_raw());
        assert_eq!(cached_y.as_raw(), gy.as_raw());
    }
    assert_eq!(buf.into_levels().len(), 3);
}

#[test]
fn levels_have_the_dimensions_that_were_announced() {
    for (w, h, levels) in [(64, 48, 3), (33, 17, 5), (9, 100, 4), (3, 3, 2)] {
        let images = build_pyramid(&textured(w, h), levels);
        let sizes: Vec<(u32, u32)> = images.iter().map(|level| level.dimensions()).collect();
        assert_eq!(sizes, pyramid_dims(w, h, levels));
        assert_eq!(sizes, pyramid_dims(w, h, images.len()));
    }
}

use optical_flow_lk::binary32::Binary32;
use optical_flow_lk::features::FeaturesBuffer;
use optical_flow_lk::good_features_to_track;
use optical_flow_lk::raster::GrayImage;
use optical_flow_lk::spacing::{accept_by_distance, filter_by_distance_into, CellGrid};
use optical_flow_lk::{Feature, FlatSamples, SampleLayout};

fn n(v: f32) -> Binary32 {
    Binary32::from_bits(v.to_bits())
}

fn f(v: Binary32) -> f32 {
    f32::from_bits(v.to_bits())
}

fn textured(width: u32, height: u32, phase: u32) -> GrayImage {
    let mut img = GrayImage::new(width, height);
    for y in 0..height {
        for x in 0..width {
            let v = ((x * 47 + y * 31 + phase * 19 + (x ^ y) * 5 + (x * y) % 13) & 0xff) as u8;
            img.put_pixel(x, y, v);
        }
    }
    img
}

fn detect(img: &GrayImage, quality: f32, min_distance: u32, max_features: usize) -> Vec<Feature> {
    let (w, h) = img.dimensions();
    let mut buf = FeaturesBuffer::with_capacity(w, h, min_distance, max_features);
    let mut out = Vec::new();
    buf.detect_into(&img.as_flat_samples(), n(quality), min_distance, max_features, &mut out);
    out
}

#[test]
fn detect_after_dims_churn_matches_fresh_buffer() {
    let quality = 0.1f32;
    let min_dist = 4u32;
    let max_features = 64usize;

    let rect_image = textured(40, 40, 0);
    let bigger_image = textured(96, 80, 1);
    let smaller_image = textured(20, 30, 2);

    let mut buf = FeaturesBuffer::with_capacity(40, 40, min_dist, max_features);
    let mut out = Vec::new();

    // Baseline run at the buffer's initial dims.
    buf.detect_into(&rect_image.as_flat_samples(), n(quality), min_dist, max_features, &mut out);
    let baseline = out.clone();
    assert!(!baseline.is_empty(), "textured image should yield corners");

    // Grow past initial capacity, then shrink below it, then bounce
    // between a couple of other sizes to churn the backing storage.
    buf.detect_into(&bigger_image.as_flat_samples(), n(quality), min_dist, max_features, &mut out);
    buf.detect_into(&smaller_image.as_flat_samples(), n(quality), min_dist, max_features, &mut out);
    buf.detect_into(&bigger_image.as_flat_samples(), n(quality), min_dist, max_features, &mut out);
    buf.detect_into(&smaller_image.as_flat_samples(), n(quality), min_dist, max_features, &mut out);

    // Detect on the first image again, after all that churn.
    buf.detect_into(&rect_image.as_flat_samples(), n(quality), min_dist, max_features, &mut out);

    // Compare against a fresh buffer that only ever sees this image.
    let fresh = detect(&rect_image, quality, min_dist, max_features);

    assert_eq!(out.len(), baseline.len());
    assert_eq!(out.len(), fresh.len());
    for ((churned, base), fresh) in out.iter().zip(baseline.iter()).zip(fresh.iter()) {
        assert_eq!(churned.x, base.x);
        assert_eq!(churned.y, base.y);
        assert_eq!(churned.strength, base.strength);
        assert_eq!(churned.x, fresh.x);
        assert_eq!(churned.y, fresh.y);
        assert_eq!(churned.strength, fresh.strength);
    }
}

/// The score of every pixel, computed with the machine's own numbers.
fn reference_scores(img: &GrayImage) -> Vec<f32> {
    let (w, h) = img.dimensions();
    let (w, h) = (w as i64, h as i64);
    let at = |x: i64, y: i64| img.get_pixel(x as u32, y as u32) as i32;
    let mut products = vec![(0i32, 0i32, 0i32); (w * h) as usize];
    for y in 1..h - 1 {
        for x in 1..w - 1 {
            let gx = 3 * (at(x + 1, y - 1) + at(x + 1, y + 1) - at(x - 1, y - 1) - at(x - 1, y + 1))
                + 10 * (at(x + 1, y) - at(x - 1, y));
            let gy = 3 * (at(x - 1, y + 1) + at(x + 1, y + 1) - at(x - 1, y - 1) - at(x + 1, y - 1))
                + 10 * (at(x, y + 1) - at(x, y - 1));
            let (ix, iy) = (gx / 32, gy / 32);
            products[(y * w + x) as usize] = (ix * ix, iy * iy, ix * iy);
        }
    }
    let mut scores = Vec::new();
    for y in 0..h {
        for x in 0..w {
            let mut sum = (0i32, 0i32, 0i32);
            for dy in -1..=1 {
                for dx in -1..=1 {
                    let cx = (x + dx).clamp(0, w - 1);
                    let cy = (y + dy).clamp(0, h - 1);
                    let p = products[(cy * w + cx) as usize];
                    sum = (sum.0 + p.0, sum.1 + p.1, sum.2 + p.2);
                }
            }
            let (a, b, c) = (sum.0 / 9, sum.1 / 9, sum.2 / 9);
            let trace = a + b;
            let discriminant = (a - b) * (a - b) + 4 * c * c;
            scores.push((trace as f32 - (discriminant as f32).sqrt()) / 2.0);
        }
    }
    scores
}

#[test]
fn detection_keeps_the_local_maxima_that_reach_the_threshold() {
    let img = textured(48, 36, 3);
    let (w, h) = (48usize, 36usize);
    let scores = reference_scores(&img);
    let mut peaks: Vec<(u32, u32, f32)> = Vec::new();
    for y in 1..h - 1 {
        for x in 1..w - 1 {
            let own = scores[y * w + x];
            let mut highest = true;
            for ny in y - 1..=y + 1 {
                for nx in x - 1..=x + 1 {
                    if scores[ny * w + nx] > own {
                        highest = false;
                    }
                }
            }
            if highest {
                peaks.push((x as u32, y as u32, own));
            }
        }
    }
    let best = peaks.iter().map(|p| p.2).fold(0.0f32, f32::max);
    for quality in [0.0f32, 0.1, 0.35, 1.0] {
        let mut expected: Vec<(u32, u32, u32)> = peaks
            .iter()
            .filter(|p| p.2 >= quality * best)
            .map(|p| (p.0, p.1, p.2.to_bits()))
            .collect();
        expected.sort();
        // A distance of zero keeps every candidate.
        let mut found: Vec<(u32, u32, u32)> = good_features_to_track(&img, n(quality), 0)
            .iter()
            .map(|p| (p.0, p.1, p.2.to_bits()))
            .collect();
        found.sort();
        assert!(!found.is_empty());
        assert_eq!(found, expected, "quality {quality}");
    }
}

#[test]
fn points_come_in_descending_order() {
    let points = good_features_to_track(&textured(64, 48, 5), n(0.05), 3);
    assert!(points.len() > 10);
    for pair in points.windows(2) {
        assert!(f(pair[0].2) >= f(pair[1].2));
    }
}

#[test]
fn points_are_apart_by_the_minimal_distance() {
    for d in 0..=16u32 {
        let points = good_features_to_track(&textured(64, 48, 5), n(0.0), d);
        for i in 0..points.len() {
            for j in i + 1..points.len() {
                let dx = points[i].0 as i64 - points[j].0 as i64;
                let dy = points[i].1 as i64 - points[j].1 as i64;
                assert!(dx * dx + dy * dy >= (d * d) as i64);
            }
        }
    }
}

#[test]
fn every_accepted_point_of_a_cell_counts() {
    let candidates = vec![(0u32, 0u32, n(3.0)), (9, 9, n(2.0)), (1, 0, n(1.0))];
    let mut cells = CellGrid::with_capacity(20, 20, 10);
    let mut out = Vec::new();
    filter_by_distance_into(&candidates, 10, 20, 20, 10, &mut cells, &mut out);
    let expected = vec![
        Feature { x: n(0.0), y: n(0.0), strength: n(3.0) },
        Feature { x: n(9.0), y: n(9.0), strength: n(2.0) },
    ];
    assert_eq!(out, expected);
    // The cells are used again, for another image and another distance.
    let more = vec![(30u32, 2u32, n(9.0)), (33, 6, n(8.0)), (34, 5, n(7.0)), (29, 3, n(6.0))];
    filter_by_distance_into(&more, 5, 40, 10, 10, &mut cells, &mut out);
    let expected = vec![
        Feature { x: n(30.0), y: n(2.0), strength: n(9.0) },
        Feature { x: n(33.0), y: n(6.0), strength: n(8.0) },
    ];
    assert_eq!(out, expected);
    filter_by_distance_into(&more, 0, 40, 10, 3, &mut cells, &mut out);
    assert_eq!(out.len(), 3);
}

#[test]
fn accepted_points_are_whole_pixels_of_any_width() {
    // Beyond 24 bits not every column is a single-precision number.
    let column = (1u32 << 24) + 1;
    let candidates = vec![(column, 0u32, n(3.0)), (column - 20, 0, n(2.0))];
    let mut cells = CellGrid::with_capacity(column + 1, 1, 10);
    accept_by_distance(&candidates, 10, column + 1, 1, 5, &mut cells);
    assert_eq!(cells.accepted_points(), &candidates);
    let mut out = Vec::new();
    filter_by_distance_into(&candidates, 10, column + 1, 1, 5, &mut cells, &mut out);
    assert_eq!(f(out[0].x), (1u32 << 24) as f32);
    assert_eq!(f(out[1].x), (column - 20) as f32);
}

#[test]
fn detected_pixels_are_those_of_the_features() {
    let img = textured(64, 48, 5);
    let mut buf = FeaturesBuffer::with_capacity(3, 3, 1, 4);
    let pixels = buf.detect_pixels(&img.as_flat_samples(), n(0.05), 4, 30).clone();
    let features = detect(&img, 0.05, 4, 30);
    assert_eq!(pixels.len(), 30);
    for (p, one) in pixels.iter().zip(&features) {
        assert_eq!((p.0 as f32, p.1 as f32), (f(one.x), f(one.y)));
        assert_eq!(p.2, one.strength);
    }
}

#[test]
fn points_of_one_score_come_row_by_row() {
    // Bright squares on black: their corners have few different scores.
    let mut img = GrayImage::new(60, 50);
    for y in 0..50u32 {
        for x in 0..60u32 {
            if x % 20 >= 6 && x % 20 < 14 && y % 16 >= 4 && y % 16 < 10 {
                img.put_pixel(x, y, 200);
            }
        }
    }
    let points = good_features_to_track(&img, n(0.1), 2);
    let mut ties = 0;
    for pair in points.windows(2) {
        if f(pair[0].2) == f(pair[1].2) {
            ties += 1;
            assert!((pair[0].1, pair[0].0) < (pair[1].1, pair[1].0));
        }
    }
    assert!(ties > 10);
    let mut buf = FeaturesBuffer::with_capacity(7, 3, 4, 10);
    let mut out = Vec::new();
    buf.detect_into(&textured(90, 70, 4).as_flat_samples(), n(0.0), 5, 900, &mut out);
    buf.detect_into(&img.as_flat_samples(), n(0.1), 2, 10_000, &mut out);
    assert_eq!(out, detect(&img, 0.1, 2, 10_000));
}

#[test]
fn a_larger_distance_keeps_fewer_points() {
    let img = textured(64, 48, 5);
    let near = good_features_to_track(&img, n(0.0), 2).len();
    let far = good_features_to_track(&img, n(0.0), 12).len();
    assert!(far < near);
    assert!(far > 0);
    // Farther than the image is wide: only the best is left.
    let alone = good_features_to_track(&img, n(0.0), 100);
    assert_eq!(alone.len(), 1);
    assert_eq!(alone[0], good_features_to_track(&img, n(0.0), 0)[0]);
}

#[test]
fn no_more_features_than_asked_for() {
    let img = textured(64, 48, 5);
    let all = detect(&img, 0.0, 2, 10_000);
    for most in [0usize, 1, 5, 17] {
        let some = detect(&img, 0.0, 2, most);
        assert_eq!(some.len(), most);
        assert_eq!(&some[..], &all[..most]);
    }
}

#[test]
fn strengths_are_not_negative() {
    for q in [0.0f32, 0.2] {
        for p in detect(&textured(50, 40, 9), q, 1, 10_000) {
            assert!(f(p.strength) >= 0.0);
        }
    }
}

#[test]
fn a_quality_level_that_is_no_number_keeps_nothing() {
    assert!(detect(&textured(40, 40, 0), f32::NAN, 1, 100).is_empty());
}

#[test]
fn a_view_of_a_part_gives_the_features_of_the_part() {
    let big = textured(60, 50, 4);
    let (left, top, w, h) = (9usize, 6usize, 33u32, 28u32);
    let mut part = GrayImage::new(w, h);
    for y in 0..h {
        for x in 0..w {
            part.put_pixel(x, y, big.get_pixel(x + left as u32, y + top as u32));
        }
    }
    let view = FlatSamples {
        samples: &big.as_raw()[top * 60 + left..],
        layout: SampleLayout {
            channels: 1,
            channel_stride: 1,
            width: w,
            width_stride: 1,
            height: h,
            height_stride: 60,
        },
    };
    let mut buf = FeaturesBuffer::with_capacity(w, h, 4, 50);
    let mut found = Vec::new();
    buf.detect_into(&view, n(0.1), 4, 50, &mut found);
    assert!(!found.is_empty());
    assert_eq!(found, detect(&part, 0.1, 4, 50));
}

#[test]
fn small_images_have_no_features() {
    for (w, h) in [(0, 0), (1, 1), (2, 9), (9, 2)] {
        let img = GrayImage::new(w, h);
        assert!(detect(&img, 0.1, 3, 10).is_empty());
    }
}

#[test]
fn a_single_corner_is_found() {
    let mut img = GrayImage::new(20, 20);
    for y in 8..20 {
        for x in 8..20 {
            img.put_pixel(x, y, 200);
        }
    }
    let points = good_features_to_track(&img, n(0.5), 10);
    assert_eq!(points.len(), 1);
    assert!((points[0].0 as i32 - 8).abs() <= 1);
    assert!((points[0].1 as i32 - 8).abs() <= 1);
    assert!(f(points[0].2) > 0.0);
}

#[test]
fn points_are_the_positions_of_the_features() {
    let img = textured(60, 44, 6);
    let points = good_features_to_track(&img, n(0.1), 5);
    let found = detect(&img, 0.1, 5, 60 * 44);
    assert_eq!(points.len(), found.len());
    assert!(!points.is_empty());
    for (point, feature) in points.iter().zip(found.iter()) {
        assert_eq!(point.0 as f32, f(feature.x));
        assert_eq!(point.1 as f32, f(feature.y));
        assert_eq!(point.2, feature.strength);
    }
}

#[test]
fn no_point_comes_twice() {
    let points = good_features_to_track(&GrayImage::new(12, 10), n(0.0), 0);
    // Every interior pixel of a black image is a candidate of score zero.
    assert_eq!(points.len(), 10 * 8);
    let mut places: Vec<(u32, u32)> = points.iter().map(|p| (p.0, p.1)).collect();
    places.sort();
    places.dedup();
    assert_eq!(places.len(), 10 * 8);
}

#[test]
fn a_point_that_is_left_out_is_near_one_that_is_kept() {
    let img = textured(64, 48, 5);
    let all = good_features_to_track(&img, n(0.0), 0);
    let d = 7i64;
    let kept = good_features_to_track(&img, n(0.0), d as u32);
    assert!(kept.len() < all.len());
    for p in &all {
        let near = kept.iter().any(|k| {
            let dx = k.0 as i64 - p.0 as i64;
            let dy = k.1 as i64 - p.1 as i64;
            (dx == 0 && dy == 0) || dx * dx + dy * dy < d * d
        });
        assert!(near);
    }
}

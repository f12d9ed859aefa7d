use optical_flow_lk::binary32::Binary32;
use optical_flow_lk::buffers::{LkBuffer, PyramidBuffer};
use optical_flow_lk::lk::{
    build_window_offsets, in_bounds, interpolate, invert_2x2, track_level,
};
use optical_flow_lk::raster::{GradPlane, GrayImage};
use optical_flow_lk::utils::fast_gradients::compute_gradients_into;
use optical_flow_lk::{build_pyramid, calc_optical_flow, Feature};

fn n(v: f32) -> Binary32 {
    Binary32::from_bits(v.to_bits())
}

fn f(v: Binary32) -> f32 {
    f32::from_bits(v.to_bits())
}

#[test]
fn invert_2x2_returns_inverse_components() {
    let (inv00, inv01, inv11) = invert_2x2(n(4.0), n(1.0), n(3.0), n(1e-6)).unwrap();

    assert!((f(inv00) - 3.0 / 11.0).abs() < 1e-6);
    assert!((f(inv01) + 1.0 / 11.0).abs() < 1e-6);
    assert!((f(inv11) - 4.0 / 11.0).abs() < 1e-6);
}

#[test]
fn invert_2x2_rejects_singular_matrix() {
    assert!(invert_2x2(n(1.0), n(2.0), n(4.0), n(1e-6)).is_none());
}

#[test]
fn invert_2x2_rejects_a_determinant_at_the_limit() {
    assert!(invert_2x2(n(1.0), n(0.0), n(0.5), n(0.5)).is_none());
    assert!(invert_2x2(n(1.0), n(0.0), n(-0.5), n(0.5)).is_none());
    assert!(invert_2x2(n(1.0), n(0.0), n(0.75), n(0.5)).is_some());
}

/// Interpolation with a bounds check on every tap.
fn interpolate_reference(img: &GrayImage, x: f32, y: f32) -> f32 {
    let (w, h) = img.dimensions();
    let x0 = x.floor() as i32;
    let y0 = y.floor() as i32;
    let x1 = x0 + 1;
    let y1 = y0 + 1;

    let dx = x - x0 as f32;
    let dy = y - y0 as f32;

    let mut sum = 0.0f32;
    for (sx, sy) in &[(x0, y0), (x0, y1), (x1, y0), (x1, y1)] {
        let inside = *sx >= 0 && *sy >= 0 && *sx < w as i32 && *sy < h as i32;
        let px = if inside { img.get_pixel(*sx as u32, *sy as u32) as f32 } else { 0.0 };

        let wx = if sx == &x0 { 1.0 - dx } else { dx };
        let wy = if sy == &y0 { 1.0 - dy } else { dy };

        sum += px * wx * wy;
    }

    sum
}

fn textured_image(width: u32, height: u32) -> GrayImage {
    let mut img = GrayImage::new(width, height);
    for y in 0..height {
        for x in 0..width {
            // Every tap combination sees a distinct value.
            let v = ((x * 37 + y * 23 + (x ^ y) * 11 + (x * y) % 13) & 0xff) as u8;
            img.put_pixel(x, y, v);
        }
    }
    img
}

#[test]
fn interpolate_matches_reference_dense_grid() {
    let img = textured_image(24, 20);
    let (w, h) = (24i32, 20i32);

    let fracs: [f32; 7] = [0.0, 0.05, 0.25, 0.5, 0.5, 0.75, 0.999];
    for base_x in -2..=w {
        for base_y in -2..=h {
            for &fx in &fracs {
                for &fy in &fracs {
                    let x = base_x as f32 + fx;
                    let y = base_y as f32 + fy;
                    let expected = interpolate_reference(&img, x, y);
                    let actual = f(interpolate(&img, n(x), n(y)));
                    assert_eq!(
                        actual.to_bits(),
                        expected.to_bits(),
                        "mismatch at x={x}, y={y}: actual={actual}, expected={expected}"
                    );
                }
            }
        }
    }
}

#[test]
fn interpolate_matches_reference_at_every_border() {
    let img = textured_image(10, 8);
    let (w, h) = (10f32, 8f32);
    let positions = [
        (0.0, 0.0),         // top-left corner, cell fully in bounds
        (-0.5, -0.5),       // top-left, cell out of bounds
        (w - 1.0, 0.0),     // top-right, in bounds (tap at x == w-1)
        (w - 0.5, 0.0),     // top-right, tap lands at x == w
        (0.0, h - 1.0),     // bottom-left, in bounds
        (0.0, h - 0.5),     // bottom-left, tap at y == h
        (w - 1.0, h - 1.0), // bottom-right, in bounds
        (w - 0.5, h - 0.5), // bottom-right, taps at x == w and y == h
        (w, h),             // fully out of bounds
    ];
    for (x, y) in positions {
        let expected = interpolate_reference(&img, x, y);
        let actual = f(interpolate(&img, n(x), n(y)));
        assert_eq!(
            actual.to_bits(),
            expected.to_bits(),
            "mismatch at x={x}, y={y}: actual={actual}, expected={expected}"
        );
    }
}

#[test]
fn interpolation_far_outside_is_zero() {
    let img = textured_image(6, 6);
    for far in [1e9f32, -1e9, 1e20, -1e20] {
        assert_eq!(f(interpolate(&img, n(far), n(2.0))).abs(), 0.0);
        assert_eq!(f(interpolate(&img, n(2.0), n(far))).abs(), 0.0);
    }
}

#[test]
fn interpolation_of_gradients() {
    let img = textured_image(9, 9);
    let mut gx = GradPlane::new(9, 9);
    let mut gy = GradPlane::new(9, 9);
    compute_gradients_into(&img.as_flat_samples(), &mut gx, &mut gy);
    let at = |x: usize, y: usize| gx.as_raw()[y * 9 + x] as f32;
    // On a pixel, half way between two, and beyond the last column.
    assert_eq!(f(interpolate(&gx, n(3.0), n(4.0))), at(3, 4));
    assert_eq!(f(interpolate(&gx, n(3.5), n(4.0))), at(3, 4) * 0.5 + at(4, 4) * 0.5);
    assert_eq!(f(interpolate(&gx, n(8.5), n(4.0))), at(8, 4) * 0.5);
    assert!(at(3, 4) != 0.0);
}

#[test]
fn the_window_must_stay_inside() {
    let img = GrayImage::new(20, 10);
    assert!(in_bounds(&img, n(3.0), n(3.0), 3));
    assert!(!in_bounds(&img, n(2.999), n(3.0), 3));
    assert!(!in_bounds(&img, n(3.0), n(2.5), 3));
    assert!(in_bounds(&img, n(16.9), n(6.9), 3));
    assert!(!in_bounds(&img, n(17.0), n(5.0), 3));
    assert!(!in_bounds(&img, n(5.0), n(7.0), 3));
    assert!(!in_bounds(&img, n(f32::NAN), n(5.0), 3));
    // Two radii are more than the image is wide.
    assert!(!in_bounds(&img, n(10.0), n(5.0), 10));
}

fn textured(width: u32, height: u32, phase: u32) -> GrayImage {
    let mut img = GrayImage::new(width, height);
    for y in 0..height {
        for x in 0..width {
            let v = ((x * 41 + y * 17 + phase * 13 + (x ^ y) * 7 + (x * y) % 11) & 0xff) as u8;
            img.put_pixel(x, y, v);
        }
    }
    img
}

fn starting_features(w: u32, h: u32, step: usize) -> Vec<Feature> {
    let mut out = Vec::new();
    for x in (0..w).step_by(step) {
        for y in (0..h).step_by(step) {
            out.push(Feature { x: n(x as f32), y: n(y as f32), strength: n(1.0) });
        }
    }
    out
}

#[test]
fn calc_into_status_cached_matches_uncached_reference() {
    let (w, h) = (64u32, 64u32);
    let levels = 3usize;
    let window = 11usize;
    let max_iters = 14usize;

    let prev_img = textured(w, h, 0);
    let curr_img = textured(w, h, 5);

    let mut prev_pb = PyramidBuffer::with_capacity(w, h, levels);
    let mut curr_pb = PyramidBuffer::with_capacity(w, h, levels);
    prev_pb.build_into(&prev_img.as_flat_samples());
    curr_pb.build_into(&curr_img.as_flat_samples());

    let starting = starting_features(w, h, 6);

    let mut buf = LkBuffer::with_capacity(w, h, levels, window, starting.len());

    // Forward role: prev -> curr.
    let mut fwd_ref = starting.clone();
    let mut fwd_ref_valid = Vec::new();
    buf.calc_into_status(
        prev_pb.levels(),
        curr_pb.levels(),
        &mut fwd_ref,
        max_iters,
        Some(&mut fwd_ref_valid),
    );

    let mut fwd_cached = starting.clone();
    let mut fwd_cached_valid = Vec::new();
    buf.calc_into_status_cached(
        &prev_pb,
        &curr_pb,
        &mut fwd_cached,
        max_iters,
        Some(&mut fwd_cached_valid),
    );

    assert_eq!(fwd_ref_valid, fwd_cached_valid);
    for (r, c) in fwd_ref.iter().zip(fwd_cached.iter()) {
        assert_eq!(r.x.to_bits(), c.x.to_bits());
        assert_eq!(r.y.to_bits(), c.y.to_bits());
    }

    // Backward role: curr -> prev.
    let mut back_ref = starting.clone();
    let mut back_ref_valid = Vec::new();
    buf.calc_into_status(
        curr_pb.levels(),
        prev_pb.levels(),
        &mut back_ref,
        max_iters,
        Some(&mut back_ref_valid),
    );

    let mut back_cached = starting.clone();
    let mut back_cached_valid = Vec::new();
    buf.calc_into_status_cached(
        &curr_pb,
        &prev_pb,
        &mut back_cached,
        max_iters,
        Some(&mut back_cached_valid),
    );

    assert_eq!(back_ref_valid, back_cached_valid);
    for (r, c) in back_ref.iter().zip(back_cached.iter()) {
        assert_eq!(r.x.to_bits(), c.x.to_bits());
        assert_eq!(r.y.to_bits(), c.y.to_bits());
    }
}

fn interpolate_plane(plane: &GradPlane, x: f32, y: f32) -> f32 {
    let (w, h) = plane.dimensions();
    let (x0, y0) = (x.floor() as i32, y.floor() as i32);
    let (dx, dy) = (x - x0 as f32, y - y0 as f32);
    let at = |sx: i32, sy: i32| {
        if sx >= 0 && sy >= 0 && sx < w as i32 && sy < h as i32 {
            plane.as_raw()[sy as usize * w as usize + sx as usize] as f32
        } else {
            0.0
        }
    };
    let mut sum = 0.0f32;
    sum += at(x0, y0) * (1.0 - dx) * (1.0 - dy);
    sum += at(x0, y0 + 1) * (1.0 - dx) * dy;
    sum += at(x0 + 1, y0) * dx * (1.0 - dy);
    sum += at(x0 + 1, y0 + 1) * dx * dy;
    sum
}

fn inside(img: &GrayImage, x: f32, y: f32, radius: i32) -> bool {
    let (w, h) = img.dimensions();
    let r = radius as f32;
    x >= r && x < w as f32 - r && y >= r && y < h as f32 - r
}

/// One feature through one level with the machine's own numbers.
fn reference_level(
    prev: &GrayImage,
    curr: &GrayImage,
    scale: f32,
    radius: i32,
    iterations: usize,
    position: (f32, f32),
    disp: (f32, f32),
) -> Option<(f32, f32)> {
    let (w, h) = prev.dimensions();
    let mut gx = GradPlane::new(w, h);
    let mut gy = GradPlane::new(w, h);
    compute_gradients_into(&prev.as_flat_samples(), &mut gx, &mut gy);
    let x = position.0 / scale;
    let y = position.1 / scale;
    let mut dx = disp.0 / scale;
    let mut dy = disp.1 / scale;
    if !inside(prev, x, y, radius) {
        return None;
    }
    let mut patch: Vec<(f32, f32, f32, f32, f32)> = Vec::new();
    let (mut gxx, mut gxy, mut gyy) = (0.0f32, 0.0f32, 0.0f32);
    for j in -radius..=radius {
        for i in -radius..=radius {
            let (ox, oy) = (i as f32, j as f32);
            let ix = interpolate_plane(&gx, x + ox, y + oy) / 32.0;
            let iy = interpolate_plane(&gy, x + ox, y + oy) / 32.0;
            let value = interpolate_reference(prev, x + ox, y + oy);
            patch.push((ox, oy, value, ix, iy));
            gxx += ix * ix;
            gxy += ix * iy;
            gyy += iy * iy;
        }
    }
    let det = gxx * gyy - gxy * gxy;
    if det.abs() <= 1e-6 {
        return None;
    }
    let inv_det = 1.0 / det;
    let (i00, i01, i11) = (gyy * inv_det, -gxy * inv_det, gxx * inv_det);
    for _ in 0..iterations {
        let cx = x + dx;
        let cy = y + dy;
        if !inside(curr, cx, cy, radius) {
            break;
        }
        let (mut bx, mut by) = (0.0f32, 0.0f32);
        for &(ox, oy, value, ix, iy) in &patch {
            let error = value - interpolate_reference(curr, cx + ox, cy + oy);
            bx += ix * error;
            by += iy * error;
        }
        let ddx = i00 * bx + i01 * by;
        let ddy = i01 * bx + i11 * by;
        dx += ddx;
        dy += ddy;
        if ddx.abs() < 1e-3 && ddy.abs() < 1e-3 {
            break;
        }
    }
    Some((dx * scale, dy * scale))
}

#[test]
fn flow_agrees_with_hardware_to_the_bit() {
    let (w, h) = (96u32, 80u32);
    let prev = build_pyramid(&textured(w, h, 0), 3);
    let curr = build_pyramid(&textured(w, h, 2), 3);
    let window = 7usize;
    let iterations = 6usize;
    let mut points: Vec<(f32, f32)> = Vec::new();
    for i in 0..40 {
        points.push((i as f32 * 2.4 + 0.3, (i * 14 % 80) as f32 + 0.17 * i as f32));
    }
    let ours = calc_optical_flow(
        &prev,
        &curr,
        &points.iter().map(|p| (n(p.0), n(p.1))).collect::<Vec<_>>(),
        window,
        iterations,
    );
    let mut moved = 0;
    let mut skipped = 0;
    for (i, &(x, y)) in points.iter().enumerate() {
        let mut disp = (0.0f32, 0.0f32);
        let mut valid = false;
        for level in (0..prev.len()).rev() {
            let scale = 2f32.powi(level as i32);
            let found = reference_level(
                &prev[level],
                &curr[level],
                scale,
                (window / 2) as i32,
                iterations,
                (x, y),
                disp,
            );
            if let Some(d) = found {
                disp = d;
                if level == prev.len() - 1 {
                    valid = true;
                }
            }
        }
        if !valid {
            disp = (0.0, 0.0);
            skipped += 1;
        }
        let expected = (x + disp.0, y + disp.1);
        assert_eq!(ours[i].0.to_bits(), expected.0.to_bits(), "point {i}");
        assert_eq!(ours[i].1.to_bits(), expected.1.to_bits(), "point {i}");
        if disp != (0.0, 0.0) {
            moved += 1;
        }
    }
    assert!(moved > 10);
    assert!(skipped > 0);
}

#[test]
fn a_feature_is_followed_as_if_it_were_alone() {
    let (w, h) = (40u32, 40u32);
    let mut prev = PyramidBuffer::with_capacity(w, h, 2);
    let mut curr = PyramidBuffer::with_capacity(w, h, 2);
    prev.build_into(&textured(w, h, 1).as_flat_samples());
    curr.build_into(&textured(w, h, 3).as_flat_samples());
    let mut buf = LkBuffer::with_capacity(w, h, 2, 5, 10);
    let start = starting_features(w, h, 7);
    let mut together = start.clone();
    let mut status = Vec::new();
    buf.calc_into_status_cached(&prev, &curr, &mut together, 5, Some(&mut status));
    assert!(status.iter().any(|v| *v) && status.iter().any(|v| !*v));
    for (i, one) in start.iter().enumerate() {
        let mut alone = vec![*one];
        let mut alone_status = Vec::new();
        buf.calc_into_status_cached(&prev, &curr, &mut alone, 5, Some(&mut alone_status));
        assert_eq!(alone[0].x.to_bits(), together[i].x.to_bits());
        assert_eq!(alone[0].y.to_bits(), together[i].y.to_bits());
        assert_eq!(alone_status, vec![status[i]]);
        let mut without = vec![*one];
        buf.calc_into_cached(&prev, &curr, &mut without, 5);
        assert_eq!(without[0].x.to_bits(), together[i].x.to_bits());
    }
}

#[test]
fn a_skipped_feature_stays_and_is_not_valid() {
    let (w, h) = (32u32, 32u32);
    let mut prev = PyramidBuffer::with_capacity(w, h, 2);
    let mut curr = PyramidBuffer::with_capacity(w, h, 2);
    prev.build_into(&textured(w, h, 1).as_flat_samples());
    curr.build_into(&textured(w, h, 3).as_flat_samples());
    let mut buf = LkBuffer::with_capacity(w, h, 2, 7, 4);
    let mut features = vec![Feature { x: n(2.0), y: n(16.0), strength: n(0.5) }];
    let mut status = vec![true, true, true];
    buf.calc_into_status(prev.levels(), curr.levels(), &mut features, 9, Some(&mut status));
    assert_eq!(status, vec![false]);
    assert_eq!(features, vec![Feature { x: n(2.0), y: n(16.0), strength: n(0.5) }]);
}

#[test]
fn a_feature_skipped_at_the_coarsest_level_is_not_moved_by_finer_ones() {
    let (w, h) = (32u32, 32u32);
    // The window fits the first level at x = 4, and not the second at x = 2.
    let start = Feature { x: n(4.0), y: n(16.0), strength: n(0.5) };
    for (levels, expected) in [(1usize, true), (2, false)] {
        let mut prev = PyramidBuffer::with_capacity(w, h, levels);
        let mut curr = PyramidBuffer::with_capacity(w, h, levels);
        prev.build_into(&textured(w, h, 1).as_flat_samples());
        curr.build_into(&textured(w, h, 3).as_flat_samples());
        let mut buf = LkBuffer::with_capacity(w, h, levels, 7, 4);
        let mut features = vec![start];
        let mut status = Vec::new();
        buf.calc_into_status_cached(&prev, &curr, &mut features, 9, Some(&mut status));
        assert_eq!(status, vec![expected]);
        assert_eq!(features[0] != start, expected);
        let mut again = vec![start];
        buf.calc_into_status(prev.levels(), curr.levels(), &mut again, 9, Some(&mut status));
        assert_eq!(status, vec![expected]);
        assert_eq!(again, features);
        let mut plain = vec![start];
        buf.calc_into(prev.levels(), curr.levels(), &mut plain, 9);
        assert_eq!(plain, features);
        let points =
            calc_optical_flow(prev.levels(), curr.levels(), &[(start.x, start.y)], 7, 9);
        assert_eq!(points, vec![(features[0].x, features[0].y)]);
    }
}

#[test]
fn a_skipped_feature_has_zero_added() {
    let (w, h) = (32u32, 32u32);
    let mut prev = PyramidBuffer::with_capacity(w, h, 2);
    let mut curr = PyramidBuffer::with_capacity(w, h, 2);
    prev.build_into(&textured(w, h, 1).as_flat_samples());
    curr.build_into(&textured(w, h, 3).as_flat_samples());
    let mut buf = LkBuffer::with_capacity(w, h, 2, 7, 4);
    let mut features = vec![
        Feature { x: n(-0.0), y: n(16.0), strength: n(0.5) },
        Feature { x: n(f32::NEG_INFINITY), y: n(-3.25), strength: n(0.5) },
        Feature { x: n(f32::NAN), y: n(0.0), strength: n(0.5) },
    ];
    let mut status = Vec::new();
    buf.calc_into_status_cached(&prev, &curr, &mut features, 9, Some(&mut status));
    assert_eq!(status, vec![false; 3]);
    assert_eq!(features[0].x.to_bits(), (-0.0f32 + 0.0).to_bits());
    assert_eq!(features[0].x.to_bits(), 0);
    assert_eq!(features[0].y.to_bits(), 16.0f32.to_bits());
    assert_eq!(features[1].x.to_bits(), f32::NEG_INFINITY.to_bits());
    assert_eq!(features[1].y.to_bits(), (-3.25f32).to_bits());
    assert!(f32::from_bits(features[2].x.to_bits()).is_nan());
}

#[test]
fn a_level_is_tracked_with_the_planes_that_are_given() {
    let prev = GrayImage::from_raw(9, 9, vec![10; 81]).unwrap();
    let curr = GrayImage::from_raw(9, 9, vec![8; 81]).unwrap();
    let mut gx = vec![0i16; 81];
    let mut gy = vec![0i16; 81];
    gx[4 * 9 + 3] = 32;
    gy[4 * 9 + 5] = 32;
    let grad_x = GradPlane::from_raw(9, 9, gx).unwrap();
    let grad_y = GradPlane::from_raw(9, 9, gy).unwrap();
    let features = [Feature { x: n(8.0), y: n(8.0), strength: n(1.0) }];
    let mut displacements = vec![(n(2.0), n(0.0))];
    let offsets = build_window_offsets(1);
    assert_eq!(offsets.len(), 9);
    assert_eq!(offsets[0], (n(-1.0), n(-1.0)));
    assert_eq!(offsets[5], (n(1.0), n(0.0)));
    let mut patches = vec![vec![n(0.0); 9], vec![n(0.0); 9], vec![n(0.0); 9]];
    let mut iy = patches.pop().unwrap();
    let mut ix = patches.pop().unwrap();
    let mut values = patches.pop().unwrap();
    let mut status = vec![false];
    track_level(
        &prev,
        &curr,
        &grad_x,
        &grad_y,
        n(2.0),
        1,
        1,
        true,
        &features,
        &mut displacements,
        &offsets,
        &mut values,
        &mut ix,
        &mut iy,
        &mut status,
    );
    assert_eq!(displacements, vec![(n(6.0), n(4.0))]);
    assert_eq!(status, vec![true]);
    assert_eq!(values, vec![n(10.0); 9]);
    assert_eq!(ix[3], n(1.0));
    assert_eq!(iy[5], n(1.0));
}

#[test]
fn a_plane_needs_enough_gradients() {
    assert!(GradPlane::from_raw(3, 2, vec![1; 5]).is_none());
    let plane = GradPlane::from_raw(3, 2, vec![1, -2, 3, 4, 5, 6, 7]).unwrap();
    assert_eq!(plane.dimensions(), (3, 2));
    assert_eq!(plane.as_raw(), &vec![1, -2, 3, 4, 5, 6, 7]);
}

#[test]
fn nothing_moves_between_equal_frames() {
    let (w, h) = (48u32, 40u32);
    let mut pyramid = PyramidBuffer::with_capacity(w, h, 3);
    pyramid.build_into(&textured(w, h, 6).as_flat_samples());
    let mut buf = LkBuffer::with_capacity(w, h, 3, 5, 100);
    let mut start = starting_features(w, h, 5);
    for (i, one) in start.iter_mut().enumerate() {
        one.x = n(f32::from_bits(one.x.to_bits()) + 0.13 * i as f32);
    }
    let mut features = start.clone();
    let mut status = Vec::new();
    buf.calc_into_status_cached(&pyramid, &pyramid, &mut features, 9, Some(&mut status));
    assert!(status.iter().any(|v| *v) && status.iter().any(|v| !*v));
    assert_eq!(features, start);
}

#[test]
fn a_flat_image_gives_no_flow() {
    let (w, h) = (32u32, 32u32);
    let prev = PyramidBuffer::with_capacity(w, h, 2);
    let curr = PyramidBuffer::with_capacity(w, h, 2);
    let mut buf = LkBuffer::with_capacity(w, h, 2, 5, 4);
    let mut features = vec![Feature { x: n(16.0), y: n(15.5), strength: n(3.0) }];
    let mut status = Vec::new();
    buf.calc_into_status_cached(&prev, &curr, &mut features, 9, Some(&mut status));
    assert_eq!(status, vec![false]);
    assert_eq!(features, vec![Feature { x: n(16.0), y: n(15.5), strength: n(3.0) }]);
}

#[test]
fn without_iterations_nothing_moves() {
    let (w, h) = (32u32, 32u32);
    let mut prev = PyramidBuffer::with_capacity(w, h, 2);
    let mut curr = PyramidBuffer::with_capacity(w, h, 2);
    prev.build_into(&textured(w, h, 1).as_flat_samples());
    curr.build_into(&textured(w, h, 3).as_flat_samples());
    let mut buf = LkBuffer::with_capacity(w, h, 2, 5, 4);
    let mut features = vec![Feature { x: n(16.25), y: n(15.0), strength: n(3.0) }];
    let mut status = Vec::new();
    buf.calc_into_status_cached(&prev, &curr, &mut features, 0, Some(&mut status));
    assert_eq!(status, vec![true]);
    assert_eq!(features, vec![Feature { x: n(16.25), y: n(15.0), strength: n(3.0) }]);
}

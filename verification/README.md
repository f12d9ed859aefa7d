# optical-flow-lk

Lucas-Kanade optical flow and Shi-Tomasi feature detection, verified with
Verus.

- `src/` is the library. Images and gradient planes live in buffers of the
  `image` crate (`raster.rs`); frames come in as views with any row stride
  (`flat.rs`, `validate.rs`). `pyramid.rs`, `features.rs`, `spacing.rs` and
  `lk.rs` hold the algorithms, and `still.rs` what follows for frames without
  motion. `tracker.rs` and `buffer.rs` are two pipelines on top of them, and
  `buffers.rs` holds the parts to build others.
- All fractional arithmetic is single precision. `rounding.rs` and
  `binary32.rs` compute it on bit patterns, so that positions, strengths and
  displacements have exact contracts.
- `app/` offers the same functions on `f32` and on the types of the `image`
  crate.
- `tests/` runs the library, and compares it to the machine's own arithmetic
  bit by bit.

```rust
use optical_flow_lk::OpticalFlowBuilder;

let mut tracker = OpticalFlowBuilder::new(width, height)
    .pyramid_levels(4)
    .window_size(21)
    .feature_min_distance(5)
    .build();

tracker.push_frame(&first_frame.as_flat_samples())?;
tracker.detect_features()?;

for frame in frames {
    tracker.push_frame(&frame.as_flat_samples())?;
    tracker.calculate_flow()?;
}
```

use optical_flow_lk::{LayoutError, TrackError};

#[test]
fn display_messages_render() {
    assert_eq!(
        LayoutError::UnsupportedChannels(3).to_string(),
        "unsupported channel count: 3 (expected 1)"
    );
    assert_eq!(
        LayoutError::OverlappingRows { height_stride: 4, width: 8 }.to_string(),
        "rows overlap: height_stride=4 < width=8"
    );
}

#[test]
fn remaining_layout_messages_render() {
    assert_eq!(
        LayoutError::UnsupportedWidthStride(0).to_string(),
        "unsupported width_stride: 0 (expected 1)"
    );
    assert_eq!(
        LayoutError::BufferTooSmall { required: 18446, actual: 1009 }.to_string(),
        "samples buffer too small: required=18446 actual=1009"
    );
}

#[test]
fn track_error_wraps_layout_error_via_from() {
    let layout = LayoutError::UnsupportedChannels(4);
    let track: TrackError = layout.clone().into();
    assert_eq!(track, TrackError::Layout(layout));
}

#[test]
fn track_error_display_renders() {
    assert_eq!(
        TrackError::DimensionMismatch { expected: (10, 20), actual: (30, 40) }.to_string(),
        "dimension mismatch: expected (10, 20), got (30, 40)"
    );
    assert_eq!(
        TrackError::NoPreviousFrame.to_string(),
        "no previous frame pushed yet"
    );
    assert_eq!(
        TrackError::NoCurrentFrame.to_string(),
        "no current frame pushed yet"
    );
}

#[test]
fn track_error_renders_the_layout_error_inside() {
    let err = TrackError::Layout(LayoutError::OverlappingRows { height_stride: 7, width: 8 });
    assert_eq!(err.to_string(), "layout error: rows overlap: height_stride=7 < width=8");
}

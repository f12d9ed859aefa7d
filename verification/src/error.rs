//! Errors of frame validation and of the tracking pipelines.
use vstd::prelude::*;
use vstd::string::StringExecFns;

verus! {

/// Why a sample layout cannot be consumed.
#[derive(Debug, PartialEq, Eq, Structural)]
pub enum LayoutError {
    /// The number of channels is not one.
    UnsupportedChannels(u8),
    /// Neighbouring samples of a row are not adjacent.
    UnsupportedWidthStride(usize),
    /// A row starts before the previous one has ended.
    OverlappingRows { height_stride: usize, width: u32 },
    /// The samples end before the last row does.
    BufferTooSmall { required: usize, actual: usize },
}

/// Errors returned by the tracking pipelines.
#[derive(Debug, PartialEq, Eq)]
pub enum TrackError {
    /// The samples failed the layout checks: channels, stride, buffer length.
    Layout(LayoutError),
    /// Width or height did not match the configured resolution.
    DimensionMismatch { expected: (u32, u32), actual: (u32, u32) },
    /// Flow was asked for before two frames had been pushed, so there is no
    /// previous frame to track from.
    NoPreviousFrame,
    /// Detection was asked for before any frame had been pushed, so there is
    /// nothing to detect features on.
    NoCurrentFrame,
}

impl Clone for LayoutError {
    fn clone(&self) -> (r: LayoutError)
        ensures
            r == *self,
    {
        match self {
            LayoutError::UnsupportedChannels(c) => LayoutError::UnsupportedChannels(*c),
            LayoutError::UnsupportedWidthStride(s) => LayoutError::UnsupportedWidthStride(*s),
            LayoutError::OverlappingRows { height_stride, width } => LayoutError::OverlappingRows {
                height_stride: *height_stride,
                width: *width,
            },
            LayoutError::BufferTooSmall { required, actual } => LayoutError::BufferTooSmall {
                required: *required,
                actual: *actual,
            },
        }
    }
}

impl Clone for TrackError {
    fn clone(&self) -> (r: TrackError)
        ensures
            r == *self,
    {
        match self {
            TrackError::Layout(err) => TrackError::Layout(err.clone()),
            TrackError::DimensionMismatch { expected, actual } => TrackError::DimensionMismatch {
                expected: *expected,
                actual: *actual,
            },
            TrackError::NoPreviousFrame => TrackError::NoPreviousFrame,
            TrackError::NoCurrentFrame => TrackError::NoCurrentFrame,
        }
    }
}

impl From<LayoutError> for TrackError {
    fn from(value: LayoutError) -> TrackError {
        TrackError::Layout(value)
    }
}

impl vstd::std_specs::convert::FromSpecImpl<LayoutError> for TrackError {
    open spec fn obeys_from_spec() -> bool {
        true
    }

    open spec fn from_spec(value: LayoutError) -> TrackError {
        TrackError::Layout(value)
    }
}

/// The character of a decimal digit.
pub open spec fn digit(d: nat) -> char {
    (48 + d) as char
}

/// `n` in decimal notation, without leading zeros.
pub open spec fn decimal(n: nat) -> Seq<char>
    decreases n,
{
    if n < 10 {
        seq![digit(n)]
    } else {
        decimal(n / 10).push(digit(n % 10))
    }
}

/// A pair of numbers in decimal notation, in parentheses.
pub open spec fn decimal_pair(pair: (u32, u32)) -> Seq<char> {
    "("@ + decimal(pair.0 as nat) + ", "@ + decimal(pair.1 as nat) + ")"@
}

fn append_digit(out: &mut String, d: u64)
    requires
        d < 10,
    ensures
        final(out)@ == old(out)@.push(digit(d as nat)),
{
    let text: &str = match d {
        0 => "0",
        1 => "1",
        2 => "2",
        3 => "3",
        4 => "4",
        5 => "5",
        6 => "6",
        7 => "7",
        8 => "8",
        _ => "9",
    };
    proof {
        reveal_strlit("0");
        reveal_strlit("1");
        reveal_strlit("2");
        reveal_strlit("3");
        reveal_strlit("4");
        reveal_strlit("5");
        reveal_strlit("6");
        reveal_strlit("7");
        reveal_strlit("8");
        reveal_strlit("9");
        assert(text@ =~= seq![digit(d as nat)]);
        assert(out@ + text@ =~= out@.push(digit(d as nat)));
    }
    out.append(text);
}

fn append_decimal(out: &mut String, n: u64)
    ensures
        final(out)@ == old(out)@ + decimal(n as nat),
    decreases n,
{
    if n >= 10 {
        append_decimal(out, n / 10);
    }
    append_digit(out, n % 10);
    proof {
        if n < 10 {
            assert(old(out)@.push(digit(n as nat)) =~= old(out)@ + seq![digit(n as nat)]);
        } else {
            let head = decimal(n as nat / 10);
            let last = digit(n as nat % 10);
            assert((old(out)@ + head).push(last) =~= old(out)@ + head.push(last));
        }
    }
}

fn append_pair(out: &mut String, pair: (u32, u32))
    ensures
        final(out)@ == old(out)@ + decimal_pair(pair),
{
    out.append("(");
    append_decimal(out, pair.0 as u64);
    out.append(", ");
    append_decimal(out, pair.1 as u64);
    out.append(")");
    proof {
        let a = decimal(pair.0 as nat);
        let b = decimal(pair.1 as nat);
        assert(old(out)@ + "("@ + a + ", "@ + b + ")"@ =~= old(out)@ + ("("@ + a + ", "@ + b
            + ")"@));
    }
}

impl LayoutError {
    /// The message of the error.
    pub open spec fn message(self) -> Seq<char> {
        match self {
            LayoutError::UnsupportedChannels(c) => "unsupported channel count: "@ + decimal(
                c as nat,
            ) + " (expected 1)"@,
            LayoutError::UnsupportedWidthStride(s) => "unsupported width_stride: "@ + decimal(
                s as nat,
            ) + " (expected 1)"@,
            LayoutError::OverlappingRows { height_stride, width } => "rows overlap: height_stride="@
                + decimal(height_stride as nat) + " < width="@ + decimal(width as nat),
            LayoutError::BufferTooSmall { required, actual } =>
                "samples buffer too small: required="@ + decimal(required as nat) + " actual="@
                + decimal(actual as nat),
        }
    }

    /// Render the message of the error.
    pub fn to_string(&self) -> (text: String)
        ensures
            text@ == self.message(),
    {
        let mut out = String::new();
        self.append_to(&mut out);
        proof {
            assert(Seq::<char>::empty() + self.message() =~= self.message());
        }
        out
    }

    fn append_to(&self, out: &mut String)
        ensures
            final(out)@ == old(out)@ + self.message(),
    {
        match self {
            LayoutError::UnsupportedChannels(c) => {
                out.append("unsupported channel count: ");
                append_decimal(out, *c as u64);
                out.append(" (expected 1)");
            },
            LayoutError::UnsupportedWidthStride(s) => {
                out.append("unsupported width_stride: ");
                append_decimal(out, *s as u64);
                out.append(" (expected 1)");
            },
            LayoutError::OverlappingRows { height_stride, width } => {
                out.append("rows overlap: height_stride=");
                append_decimal(out, *height_stride as u64);
                out.append(" < width=");
                append_decimal(out, *width as u64);
            },
            LayoutError::BufferTooSmall { required, actual } => {
                out.append("samples buffer too small: required=");
                append_decimal(out, *required as u64);
                out.append(" actual=");
                append_decimal(out, *actual as u64);
            },
        }
        assert(out@ =~= old(out)@ + self.message());
    }
}

impl TrackError {
    /// The message of the error.
    pub open spec fn message(self) -> Seq<char> {
        match self {
            TrackError::Layout(err) => "layout error: "@ + err.message(),
            TrackError::DimensionMismatch { expected, actual } => "dimension mismatch: expected "@
                + decimal_pair(expected) + ", got "@ + decimal_pair(actual),
            TrackError::NoPreviousFrame => "no previous frame pushed yet"@,
            TrackError::NoCurrentFrame => "no current frame pushed yet"@,
        }
    }

    /// Render the message of the error.
    pub fn to_string(&self) -> (text: String)
        ensures
            text@ == self.message(),
    {
        let mut out = String::new();
        match self {
            TrackError::Layout(err) => {
                out.append("layout error: ");
                err.append_to(&mut out);
            },
            TrackError::DimensionMismatch { expected, actual } => {
                out.append("dimension mismatch: expected ");
                append_pair(&mut out, *expected);
                out.append(", got ");
                append_pair(&mut out, *actual);
            },
            TrackError::NoPreviousFrame => out.append("no previous frame pushed yet"),
            TrackError::NoCurrentFrame => out.append("no current frame pushed yet"),
        }
        assert(out@ =~= self.message());
        out
    }
}

} // verus!

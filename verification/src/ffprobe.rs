//! What `ffprobe` reports about a video.

use crate::db::Orientation;
use vstd::prelude::*;

verus! {

/// Size and orientation of a video.
#[derive(Debug, Clone, Copy, PartialEq, Eq, Structural)]
pub struct VideoInfo {
    /// Width in pixels.
    pub width: i64,
    /// Height in pixels.
    pub height: i64,
    /// Orientation of the video.
    pub orientation: Orientation,
}

/// The part of the output of `ffprobe` that is used.
#[derive(Debug)]
pub struct FfprobeOutput {
    /// The video streams; none where the output does not list any.
    pub streams: Vec<StreamEntry>,
}

/// The part of a video stream that is used.
#[derive(Debug, Clone, Copy, PartialEq, Eq)]
pub struct StreamEntry {
    /// Width in pixels, if it is given.
    pub width: Option<i64>,
    /// Height in pixels, if it is given.
    pub height: Option<i64>,
}

/// How a run of `ffprobe` ended.
#[derive(Debug)]
pub enum ProbeOutcome {
    /// The program could not be started.
    NotStarted,
    /// The program reported a failure by its exit status.
    ExitFailure,
    /// The program succeeded, but its output could not be read as JSON of the expected form.
    InvalidJson,
    /// The program succeeded with this output.
    Output(FfprobeOutput),
}

/// Why size and orientation of a video are not known.
#[derive(Debug, Clone, Copy, PartialEq, Eq, Structural)]
pub enum ProbeError {
    /// `ffprobe` could not be started.
    NotStarted,
    /// `ffprobe` failed.
    ExitFailure,
    /// The output of `ffprobe` could not be read.
    InvalidJson,
    /// There is no video stream.
    NoStream,
    /// The first video stream has no positive width.
    NoWidth,
    /// The first video stream has no positive height.
    NoHeight,
}

/// A video is horizontal when it is at least as wide as high.
pub open spec fn orientation_of(width: int, height: int) -> Orientation {
    if width >= height {
        Orientation::Horizontal
    } else {
        Orientation::Vertical
    }
}

/// A size that is given and positive.
pub open spec fn is_size(size: Option<i64>) -> bool {
    size matches Some(n) && n > 0
}

/// What the output says of the video: the first stream counts.
pub open spec fn described_video(streams: Seq<StreamEntry>) -> Result<VideoInfo, ProbeError> {
    if streams.len() == 0 {
        Err(ProbeError::NoStream)
    } else if !is_size(streams[0].width) {
        Err(ProbeError::NoWidth)
    } else if !is_size(streams[0].height) {
        Err(ProbeError::NoHeight)
    } else {
        let width = streams[0].width->Some_0;
        let height = streams[0].height->Some_0;
        Ok(VideoInfo { width, height, orientation: orientation_of(width as int, height as int) })
    }
}

/// Size and orientation of the first video stream of the output.
pub fn parse_ffprobe_output(output: &FfprobeOutput) -> (r: Result<VideoInfo, ProbeError>)
    ensures
        r == described_video(output.streams@),
{
    if output.streams.len() == 0 {
        return Err(ProbeError::NoStream);
    }
    let stream = output.streams[0];
    let width = match stream.width {
        Some(w) => w,
        None => {
            return Err(ProbeError::NoWidth);
        },
    };
    if width <= 0 {
        return Err(ProbeError::NoWidth);
    }
    let height = match stream.height {
        Some(h) => h,
        None => {
            return Err(ProbeError::NoHeight);
        },
    };
    if height <= 0 {
        return Err(ProbeError::NoHeight);
    }
    let orientation = if width >= height {
        Orientation::Horizontal
    } else {
        Orientation::Vertical
    };
    Ok(VideoInfo { width, height, orientation })
}

/// What a run of `ffprobe` says of the video.
pub open spec fn probed_video(outcome: ProbeOutcome) -> Result<VideoInfo, ProbeError> {
    match outcome {
        ProbeOutcome::NotStarted => Err(ProbeError::NotStarted),
        ProbeOutcome::ExitFailure => Err(ProbeError::ExitFailure),
        ProbeOutcome::InvalidJson => Err(ProbeError::InvalidJson),
        ProbeOutcome::Output(output) => described_video(output.streams@),
    }
}

/// Size and orientation of a video after a run of `ffprobe`.
pub fn probe(outcome: &ProbeOutcome) -> (r: Result<VideoInfo, ProbeError>)
    ensures
        r == probed_video(*outcome),
{
    match outcome {
        ProbeOutcome::NotStarted => Err(ProbeError::NotStarted),
        ProbeOutcome::ExitFailure => Err(ProbeError::ExitFailure),
        ProbeOutcome::InvalidJson => Err(ProbeError::InvalidJson),
        ProbeOutcome::Output(output) => parse_ffprobe_output(output),
    }
}

/// A described video has a positive size, and its orientation is that of its size.
pub proof fn described_video_is_consistent(streams: Seq<StreamEntry>)
    ensures
        described_video(streams) matches Ok(info) ==> info.width > 0 && info.height > 0
            && info.orientation == orientation_of(info.width as int, info.height as int),
{
}

/// Where the first stream has a positive width and height, these are the size of the video, and it
/// is vertical exactly if it is higher than wide. Other streams do not matter.
pub proof fn first_stream_decides(streams: Seq<StreamEntry>, width: i64, height: i64)
    requires
        streams.len() > 0,
        streams[0].width == Some(width),
        streams[0].height == Some(height),
        width > 0,
        height > 0,
    ensures
        described_video(streams) matches Ok(info) && {
            &&& info.width == width
            &&& info.height == height
            &&& info.orientation == Orientation::Vertical <==> width < height
            &&& info.orientation == Orientation::Horizontal <==> width >= height
        },
{
}

/// Turning a video on its side swaps its orientation unless it is a square, which is horizontal.
pub proof fn turned_video(a: Seq<StreamEntry>, b: Seq<StreamEntry>)
    requires
        described_video(a) is Ok,
        b.len() > 0,
        b[0].width == a[0].height,
        b[0].height == a[0].width,
    ensures
        described_video(a) matches Ok(x) && (described_video(b) matches Ok(y) && {
            &&& x.width == y.height
            &&& x.height == y.width
            &&& x.width != x.height ==> x.orientation != y.orientation
            &&& x.width == x.height ==> x.orientation == Orientation::Horizontal && y.orientation
                == Orientation::Horizontal
        }),
{
}

/// Without streams, or where a size of the first stream is missing or not positive, there is an
/// error; the width is looked at first.
pub proof fn sizes_that_are_refused(streams: Seq<StreamEntry>)
    ensures
        described_video(streams) == Err::<VideoInfo, ProbeError>(ProbeError::NoStream)
            <==> streams.len() == 0,
        described_video(streams) == Err::<VideoInfo, ProbeError>(ProbeError::NoWidth)
            <==> streams.len() > 0 && (streams[0].width is None || streams[0].width->Some_0 <= 0),
        described_video(streams) == Err::<VideoInfo, ProbeError>(ProbeError::NoHeight)
            <==> streams.len() > 0 && streams[0].width is Some && streams[0].width->Some_0 > 0 && (
        streams[0].height is None || streams[0].height->Some_0 <= 0),
        described_video(streams) matches Err(e) ==> e == ProbeError::NoStream || e
            == ProbeError::NoWidth || e == ProbeError::NoHeight,
{
}

/// A run that gave no output says so; the output of a run that succeeded decides alone.
pub proof fn outcome_decides(outcome: ProbeOutcome)
    ensures
        outcome is NotStarted <==> probed_video(outcome) == Err::<VideoInfo, ProbeError>(
            ProbeError::NotStarted,
        ),
        outcome is ExitFailure <==> probed_video(outcome) == Err::<VideoInfo, ProbeError>(
            ProbeError::ExitFailure,
        ),
        outcome is InvalidJson <==> probed_video(outcome) == Err::<VideoInfo, ProbeError>(
            ProbeError::InvalidJson,
        ),
        outcome matches ProbeOutcome::Output(output) ==> probed_video(outcome) == described_video(
            output.streams@,
        ),
{
}

/// A run that reports a positive size gives that size, and an orientation that is vertical exactly
/// if the video is higher than wide.
pub proof fn probed_size(
    outcome: &ProbeOutcome,
    output: FfprobeOutput,
    width: i64,
    height: i64,
    r: Result<VideoInfo, ProbeError>,
)
    requires
        call_ensures(probe, (outcome,), r) || call_ensures(parse_ffprobe_output, (&output,), r),
        *outcome == ProbeOutcome::Output(output),
        output.streams@.len() > 0,
        output.streams@[0].width == Some(width),
        output.streams@[0].height == Some(height),
        width > 0,
        height > 0,
    ensures
        r matches Ok(info) && info.width == width && info.height == height && (info.orientation
            == Orientation::Vertical <==> width < height) && (info.orientation
            == Orientation::Horizontal <==> width >= height),
{
    first_stream_decides(output.streams@, width, height);
}

} // verus!

use serde_json::Value;
use video_mapper::db::Orientation;
use video_mapper::ffprobe::{
    parse_ffprobe_output, probe, FfprobeOutput, ProbeError, ProbeOutcome, StreamEntry, VideoInfo,
};

/// The output that a JSON text stands for.
fn output(json: &[u8]) -> FfprobeOutput {
    let value: Value = serde_json::from_slice(json).unwrap();
    let streams = match value.get("streams") {
        Some(list) => list
            .as_array()
            .unwrap()
            .iter()
            .map(|s| StreamEntry {
                width: s.get("width").and_then(Value::as_i64),
                height: s.get("height").and_then(Value::as_i64),
            })
            .collect(),
        None => Vec::new(),
    };
    FfprobeOutput { streams }
}

fn sized(width: Option<i64>, height: Option<i64>) -> FfprobeOutput {
    FfprobeOutput { streams: vec![StreamEntry { width, height }] }
}

#[test]
fn test_parse_ffprobe_json() {
    let json = r#"{
            "streams": [
                {
                    "width": 3840,
                    "height": 2160
                }
            ]
        }"#;
    let info = parse_ffprobe_output(&output(json.as_bytes())).unwrap();
    assert_eq!(info, VideoInfo { width: 3840, height: 2160, orientation: Orientation::Horizontal });
}

#[test]
fn test_parse_ffprobe_json_missing_streams() {
    let json = r"{}";
    assert!(parse_ffprobe_output(&output(json.as_bytes())).is_err());
}

#[test]
fn square_is_horizontal_and_higher_is_vertical() {
    assert_eq!(parse_ffprobe_output(&sized(Some(5), Some(5))).unwrap().orientation, Orientation::Horizontal);
    assert_eq!(parse_ffprobe_output(&sized(Some(5), Some(6))).unwrap().orientation, Orientation::Vertical);
}

#[test]
fn first_stream_counts() {
    let output = FfprobeOutput {
        streams: vec![
            StreamEntry { width: Some(1), height: Some(2) },
            StreamEntry { width: Some(9), height: Some(3) },
        ],
    };
    assert_eq!(
        parse_ffprobe_output(&output),
        Ok(VideoInfo { width: 1, height: 2, orientation: Orientation::Vertical })
    );
}

#[test]
fn probe_errors() {
    assert_eq!(probe(&ProbeOutcome::NotStarted), Err(ProbeError::NotStarted));
    assert_eq!(probe(&ProbeOutcome::ExitFailure), Err(ProbeError::ExitFailure));
    assert_eq!(probe(&ProbeOutcome::InvalidJson), Err(ProbeError::InvalidJson));
    assert_eq!(probe(&ProbeOutcome::Output(FfprobeOutput { streams: vec![] })), Err(ProbeError::NoStream));
    for width in [None, Some(0), Some(-1)] {
        assert_eq!(probe(&ProbeOutcome::Output(sized(width, Some(1)))), Err(ProbeError::NoWidth));
        assert_eq!(probe(&ProbeOutcome::Output(sized(Some(1), width))), Err(ProbeError::NoHeight));
    }
    assert!(probe(&ProbeOutcome::Output(sized(Some(1), Some(1)))).is_ok());
}

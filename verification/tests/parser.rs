use media_probe::binary64::Binary64;
use media_probe::error::ProbeError;
use media_probe::media_info::{Fraction, MediaInfo};
use media_probe::parser::{
    assemble, extract_audio_stream, parse, parse_duration, parse_file_size, parse_fps,
};
use media_probe::reading::Told;
use serde_json::Value;
use std::path::PathBuf;

fn read(s: &str) -> Option<Binary64> {
    s.parse::<f64>().ok().map(|x| Binary64::from_bits(x.to_bits()))
}

fn number(x: f64) -> Binary64 {
    Binary64::from_bits(x.to_bits())
}

fn value(x: Binary64) -> f64 {
    f64::from_bits(x.bits)
}

fn json(text: &str) -> Value {
    serde_json::from_str(text).unwrap()
}

fn parsed(path: &str, text: &str) -> Result<MediaInfo, ProbeError> {
    parse(&PathBuf::from(path), json(text), read)
}

fn sample_json() -> Value {
    json(
        r#"{
            "streams": [
                {
                    "codec_type": "video",
                    "codec_name": "h264",
                    "width": 1920,
                    "height": 1080,
                    "avg_frame_rate": "30000/1001",
                    "pix_fmt": "yuv420p"
                },
                {
                    "codec_type": "audio",
                    "codec_name": "aac",
                    "sample_rate": "48000",
                    "channels": 2
                }
            ],
            "format": {
                "duration": "15.032000",
                "size": "25165824"
            }
        }"#,
    )
}

#[test]
fn parse_standard_h264_mp4() {
    let path = PathBuf::from("/tmp/test.mp4");
    let info = parse(&path, sample_json(), read).unwrap();

    assert_eq!(info.path, path);
    assert_eq!(info.video_codec, "h264");
    assert_eq!(info.resolution, (1920, 1080));
    assert_eq!(info.fps, Fraction::new(30000, 1001));
    assert!((value(info.fps.as_f64()) - 29.97).abs() < 0.01);
    assert_eq!(info.pixel_fmt, "yuv420p");
    assert!((value(info.duration) - 15.032).abs() < 0.001);
    assert_eq!(info.audio_sr, Some(48000));
    assert_eq!(info.audio_ch, Some(2));
    assert_eq!(info.audio_codec, Some("aac".to_string()));
    assert_eq!(info.file_size, 25165824);
    assert!(info.keyframes.is_empty());
}

#[test]
fn parse_video_only_file() {
    let info = parsed(
        "/tmp/silent.mp4",
        r#"{
            "streams": [{
                "codec_type": "video",
                "codec_name": "h264",
                "width": 1280,
                "height": 720,
                "avg_frame_rate": "60/1",
                "pix_fmt": "yuv420p"
            }],
            "format": { "duration": "5.0" }
        }"#,
    )
    .unwrap();
    assert!(!info.has_audio());
    assert_eq!(info.fps, Fraction::new(60, 1));
    assert_eq!(info.file_size, 0);
}

#[test]
fn parse_returns_no_video_stream_error() {
    let result = parsed(
        "/tmp/audio_only.mp3",
        r#"{
            "streams": [{
                "codec_type": "audio",
                "codec_name": "mp3",
                "sample_rate": "44100",
                "channels": 2
            }],
            "format": { "duration": "180.0" }
        }"#,
    );
    assert!(matches!(result, Err(ProbeError::NoVideoStream(_))));
    assert_eq!(result.unwrap_err().path(), Some(&PathBuf::from("/tmp/audio_only.mp3")));
}

#[test]
fn parse_fps_fraction_variants() {
    let path = PathBuf::from("/tmp/x.mp4");
    assert_eq!(parse_fps(&path, "30000/1001").unwrap(), Fraction::new(30000, 1001));
    assert_eq!(parse_fps(&path, "30/1").unwrap(), Fraction::new(30, 1));
    assert_eq!(parse_fps(&path, "25/1").unwrap(), Fraction::new(25, 1));
    assert!(parse_fps(&path, "0/1").is_err());
    assert!(parse_fps(&path, "30/0").is_err());
    assert!(parse_fps(&path, "garbage").is_err());
}

#[test]
fn parse_duration_fallback_to_stream() {
    let info = parsed(
        "/tmp/x.mkv",
        r#"{
            "streams": [
                {
                    "codec_type": "video",
                    "codec_name": "hevc",
                    "width": 3840,
                    "height": 2160,
                    "avg_frame_rate": "24/1",
                    "pix_fmt": "yuv420p",
                    "duration": "120.5"
                }
            ],
            "format": {}
        }"#,
    )
    .unwrap();
    assert!((value(info.duration) - 120.5).abs() < 0.001);
}

#[test]
fn frame_rates_of_one_part_and_of_many() {
    let path = PathBuf::from("/tmp/x.mp4");
    assert_eq!(parse_fps(&path, "30").unwrap(), Fraction::new(30, 1));
    assert_eq!(parse_fps(&path, "+24/+1").unwrap(), Fraction::new(24, 1));
    assert_eq!(parse_fps(&path, "0060/001").unwrap(), Fraction::new(60, 1));
    assert_eq!(parse_fps(&path, "4294967295/1").unwrap(), Fraction::new(4294967295, 1));
    for text in ["", "0", "/", "30/", "/1", "30/1/1", "-30/1", " 30/1", "30/1 ", "4294967296/1", "+/1", "3_0/1"] {
        match parse_fps(&path, text) {
            Err(ProbeError::InvalidFrameRate { path: p, fps_str }) => {
                assert_eq!(p, path);
                assert_eq!(fps_str, text);
            }
            other => panic!("{text}: {other:?}"),
        }
    }
}

#[test]
fn text_of_a_frame_rate_reads_back() {
    let path = PathBuf::from("/tmp/x.mp4");
    for rate in [Fraction::new(30000, 1001), Fraction::new(1, 1), Fraction::new(4294967295, 7)] {
        assert_eq!(parse_fps(&path, &rate.to_text()).unwrap(), rate);
    }
}

#[test]
fn streams_must_be_an_array() {
    for text in ["{}", r#"{"streams": {}}"#, r#"{"streams": "video"}"#, "[]", "null"] {
        match parsed("/tmp/x.mp4", text) {
            Err(ProbeError::MissingData(field)) => assert_eq!(field, "streams"),
            other => panic!("{text}: {other:?}"),
        }
    }
}

fn missing(stream: &str) -> &'static str {
    let text = format!(r#"{{"streams": [{stream}], "format": {{"duration": "1.0"}}}}"#);
    match parsed("/tmp/x.mp4", &text) {
        Err(ProbeError::MissingData(field)) => field,
        other => panic!("{other:?}"),
    }
}

#[test]
fn required_fields_of_a_video_stream() {
    assert_eq!(missing(r#"{"codec_type": "video"}"#), "video codec_name");
    assert_eq!(missing(r#"{"codec_type": "video", "codec_name": "h264"}"#), "width");
    assert_eq!(
        missing(r#"{"codec_type": "video", "codec_name": "h264", "width": 10}"#),
        "height"
    );
    assert_eq!(
        missing(r#"{"codec_type": "video", "codec_name": "h264", "width": -10, "height": 10}"#),
        "width"
    );
    assert_eq!(
        missing(r#"{"codec_type": "video", "codec_name": "h264", "width": 10, "height": 1.5}"#),
        "height"
    );
}

#[test]
fn absent_frame_rate_is_invalid() {
    let result = parsed(
        "/tmp/x.mp4",
        r#"{
            "streams": [{"codec_type": "video", "codec_name": "h264", "width": 10, "height": 10}],
            "format": {"duration": "1.0"}
        }"#,
    );
    match result {
        Err(ProbeError::InvalidFrameRate { fps_str, .. }) => assert_eq!(fps_str, "0/1"),
        other => panic!("{other:?}"),
    }
}

fn with_video(rest: &str, format: &str) -> Result<MediaInfo, ProbeError> {
    parsed(
        "/tmp/x.mp4",
        &format!(
            r#"{{
                "streams": [
                    {{"codec_type": "video", "codec_name": "vp9", "width": 4294967297,
                      "height": 10, "avg_frame_rate": "25"}}{rest}
                ],
                "format": {format}
            }}"#
        ),
    )
}

#[test]
fn defaults_of_a_video_stream() {
    let info = with_video("", r#"{"duration": "1.0"}"#).unwrap();
    assert_eq!(info.pixel_fmt, "yuv420p");
    assert_eq!(info.fps, Fraction::new(25, 1));
    assert_eq!(info.resolution, (1, 10));
}

#[test]
fn defaults_of_an_audio_stream() {
    let info = with_video(
        r#", {"codec_type": "audio", "codec_name": "aac"}"#,
        r#"{"duration": "1.0"}"#,
    )
    .unwrap();
    assert_eq!(info.audio_sr, Some(44100));
    assert_eq!(info.audio_ch, Some(2));
    let info = with_video(
        r#", {"codec_type": "audio", "codec_name": "aac", "sample_rate": "fast", "channels": 256}"#,
        r#"{"duration": "1.0"}"#,
    )
    .unwrap();
    assert_eq!(info.audio_sr, Some(44100));
    assert_eq!(info.audio_ch, Some(2));
    let info = with_video(
        r#", {"codec_type": "audio", "codec_name": "aac", "sample_rate": "+8000", "channels": 255}"#,
        r#"{"duration": "1.0"}"#,
    )
    .unwrap();
    assert_eq!(info.audio_sr, Some(8000));
    assert_eq!(info.audio_ch, Some(255));
}

#[test]
fn audio_stream_without_a_codec_is_audio() {
    let info = with_video(
        r#", {"codec_type": "audio"}, {"codec_type": "audio", "codec_name": "aac"}"#,
        r#"{"duration": "1.0"}"#,
    )
    .unwrap();
    assert!(info.has_audio());
    assert_eq!(info.audio_codec, Some("unknown".to_string()));
    assert_eq!(info.audio_sr, Some(44100));
    assert_eq!(info.audio_ch, Some(2));
    let streams: Vec<Value> = vec![json(r#"{"codec_type": "audio", "sample_rate": "8000"}"#)];
    let audio = extract_audio_stream(&streams).unwrap();
    assert_eq!(audio.codec_name, "unknown");
    assert_eq!(audio.sample_rate, 8000);
    let streams: Vec<Value> = vec![json(r#"{"codec_type": "video", "codec_name": "aac"}"#)];
    assert!(extract_audio_stream(&streams).is_none());
}

#[test]
fn durations_of_streams_are_added_up() {
    let streams = r#", {"duration": "0.1"}, {"duration": "x"}, {"duration": 7}, {"duration": "0.2"}"#;
    for format in ["{}", r#"{"duration": "0"}"#, r#"{"duration": "-4"}"#, r#"{"duration": "nan"}"#] {
        let info = with_video(streams, format).unwrap();
        assert_eq!(value(info.duration), 0.1 + 0.2);
    }
    let info = with_video(streams, r#"{"duration": "inf"}"#).unwrap();
    assert_eq!(value(info.duration), f64::INFINITY);
}

#[test]
fn streams_without_a_positive_duration_do_not_count() {
    let streams = r#", {"duration": "nan"}, {"duration": "10.0"}, {"duration": "-3"}"#;
    let info = with_video(streams, "{}").unwrap();
    assert_eq!(value(info.duration), 10.0);
}

#[test]
fn absent_duration_is_missing() {
    for format in ["{}", "null", r#""5.0""#, r#"{"size": "12"}"#] {
        match with_video(r#", {"codec_type": "audio"}"#, format) {
            Err(ProbeError::MissingData(field)) => assert_eq!(field, "duration"),
            other => panic!("{other:?}"),
        }
    }
    let result = parsed(
        "/tmp/x.mp4",
        r#"{
            "streams": [{
                "codec_type": "video", "codec_name": "h264", "width": 1280, "height": 720,
                "avg_frame_rate": "30/1", "pix_fmt": "yuv420p"
            }],
            "format": {}
        }"#,
    );
    assert!(matches!(result, Err(ProbeError::MissingData("duration"))));
}

#[test]
fn a_duration_that_is_not_positive_is_invalid() {
    let streams = r#", {"duration": "N/A"}"#;
    assert!(matches!(with_video(streams, "{}"), Err(ProbeError::InvalidDuration { .. })));
    for format in [
        r#"{"duration": null}"#,
        r#"{"duration": 5}"#,
        r#"{"duration": "0"}"#,
        r#"{"duration": "-1.5"}"#,
        r#"{"duration": "nan"}"#,
        r#"{"duration": "long"}"#,
    ] {
        match with_video("", format) {
            Err(ProbeError::InvalidDuration { path, duration }) => {
                assert_eq!(path, PathBuf::from("/tmp/x.mp4"));
                assert_eq!(duration.bits, 0);
            }
            other => panic!("{other:?}"),
        }
    }
}

#[test]
fn durations_as_numbers() {
    let path = PathBuf::from("/tmp/x.mp4");
    let streams = vec![
        Told::Number(number(1.5)),
        Told::Absent,
        Told::Number(number(f64::NAN)),
        Told::NoNumber,
        Told::Number(number(2.25)),
        Told::Number(number(-9.0)),
    ];
    let format = Told::Number(number(9.0));
    assert_eq!(value(parse_duration(&path, format, &streams).unwrap()), 9.0);
    for format in [Told::Absent, Told::NoNumber, Told::Number(number(0.0))] {
        assert_eq!(value(parse_duration(&path, format, &streams).unwrap()), 3.75);
        let info = assemble(&path, &sample_json(), format, &streams).unwrap();
        assert_eq!(value(info.duration), 3.75);
    }
    let none = vec![Told::Absent, Told::Absent];
    assert!(matches!(
        parse_duration(&path, Told::Absent, &none),
        Err(ProbeError::MissingData("duration"))
    ));
    assert!(matches!(
        parse_duration(&path, Told::NoNumber, &none),
        Err(ProbeError::InvalidDuration { .. })
    ));
    assert!(matches!(
        parse_duration(&path, Told::Absent, &vec![Told::Number(number(f64::NAN))]),
        Err(ProbeError::InvalidDuration { .. })
    ));
}

#[test]
fn file_sizes() {
    assert_eq!(parse_file_size(&json(r#"{"size": "18446744073709551615"}"#)), u64::MAX);
    assert_eq!(parse_file_size(&json(r#"{"size": "18446744073709551616"}"#)), 0);
    assert_eq!(parse_file_size(&json(r#"{"size": 12}"#)), 0);
    assert_eq!(parse_file_size(&json("{}")), 0);
}

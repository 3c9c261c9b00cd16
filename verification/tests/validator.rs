use media_probe::binary64::Binary64;
use media_probe::error::ProbeError;
use media_probe::media_info::{Fraction, MediaInfo};
use media_probe::validator::{is_supported_codec, is_supported_pixel_fmt, validate};
use std::path::PathBuf;

fn number(x: f64) -> Binary64 {
    Binary64::from_bits(x.to_bits())
}

fn valid_info() -> MediaInfo {
    MediaInfo {
        path: PathBuf::from("/tmp/test.mp4"),
        duration: number(15.0),
        fps: Fraction::new(30, 1),
        resolution: (1920, 1080),
        video_codec: "h264".to_string(),
        pixel_fmt: "yuv420p".to_string(),
        audio_sr: Some(48000),
        audio_ch: Some(2),
        audio_codec: Some("aac".to_string()),
        keyframes: vec![],
        file_size: 1024 * 1024,
    }
}

#[test]
fn valid_info_passes_all_checks() {
    assert!(validate(&valid_info()).is_ok());
}

#[test]
fn zero_duration_fails() {
    let mut info = valid_info();
    info.duration = number(0.0);
    assert!(matches!(validate(&info), Err(ProbeError::InvalidDuration { .. })));
}

#[test]
fn negative_duration_fails() {
    let mut info = valid_info();
    info.duration = number(-1.5);
    assert!(matches!(validate(&info), Err(ProbeError::InvalidDuration { .. })));
}

#[test]
fn duration_must_be_finite() {
    for x in [f64::INFINITY, f64::NEG_INFINITY, f64::NAN, -0.0] {
        let mut info = valid_info();
        info.duration = number(x);
        match validate(&info) {
            Err(ProbeError::InvalidDuration { path, duration }) => {
                assert_eq!(path, info.path);
                assert_eq!(duration.bits, x.to_bits());
            }
            other => panic!("{other:?}"),
        }
    }
    let mut info = valid_info();
    info.duration = number(f64::MIN_POSITIVE);
    assert!(validate(&info).is_ok());
}

#[test]
fn zero_resolution_fails() {
    let mut info = valid_info();
    info.resolution = (0, 1080);
    assert!(matches!(validate(&info), Err(ProbeError::InvalidResolution { .. })));
}

#[test]
fn zero_height_fails() {
    let mut info = valid_info();
    info.resolution = (1920, 0);
    assert!(matches!(
        validate(&info),
        Err(ProbeError::InvalidResolution { width: 1920, height: 0, .. })
    ));
}

#[test]
fn invalid_fps_fails() {
    let mut info = valid_info();
    info.fps = Fraction::new(0, 1);
    assert!(matches!(validate(&info), Err(ProbeError::InvalidFrameRate { .. })));
}

#[test]
fn absurd_fps_fails() {
    let mut info = valid_info();
    info.fps = Fraction::new(100_000, 1);
    assert!(matches!(validate(&info), Err(ProbeError::InvalidFrameRate { .. })));
}

#[test]
fn frame_rate_limit_is_exact() {
    let mut info = valid_info();
    for (num, den) in [(1000, 1), (4294967, 4295), (4294967000, 4294967), (1, 4294967295)] {
        info.fps = Fraction::new(num, den);
        assert!(validate(&info).is_ok());
    }
    for (num, den) in [(1001, 1), (4294967001, 4294967), (4294967295, 4294967)] {
        info.fps = Fraction::new(num, den);
        match validate(&info) {
            Err(ProbeError::InvalidFrameRate { fps_str, .. }) => {
                assert_eq!(fps_str, format!("{num}/{den} (exceeds 1000 fps limit)"))
            }
            other => panic!("{other:?}"),
        }
    }
    info.fps = Fraction::new(30, 0);
    match validate(&info) {
        Err(ProbeError::InvalidFrameRate { fps_str, .. }) => assert_eq!(fps_str, "30/0"),
        other => panic!("{other:?}"),
    }
}

#[test]
fn unsupported_codec_fails() {
    let mut info = valid_info();
    info.video_codec = "rv40".to_string();
    assert!(matches!(validate(&info), Err(ProbeError::UnsupportedFormat { .. })));
}

#[test]
fn unsupported_pixel_fmt_fails() {
    let mut info = valid_info();
    info.pixel_fmt = "gbrp16le".to_string();
    assert!(matches!(validate(&info), Err(ProbeError::UnsupportedFormat { .. })));
}

#[test]
fn unsupported_formats_are_quoted() {
    let mut info = valid_info();
    info.pixel_fmt = "GBRP".to_string();
    match validate(&info) {
        Err(ProbeError::UnsupportedFormat { value, .. }) => assert_eq!(value, "pixel format 'GBRP'"),
        other => panic!("{other:?}"),
    }
    info.video_codec = "RV40".to_string();
    match validate(&info) {
        Err(ProbeError::UnsupportedFormat { value, .. }) => assert_eq!(value, "video codec 'RV40'"),
        other => panic!("{other:?}"),
    }
}

#[test]
fn case_of_format_names_does_not_matter() {
    let mut info = valid_info();
    info.video_codec = "HEVC".to_string();
    info.pixel_fmt = "YUV420P10LE".to_string();
    assert!(validate(&info).is_ok());
    assert!(is_supported_codec("theora"));
    assert!(!is_supported_codec("Theora"));
    assert!(is_supported_pixel_fmt("nv21"));
    assert!(!is_supported_pixel_fmt("nv2"));
}

#[test]
fn partial_audio_fields_fails() {
    let mut info = valid_info();
    info.audio_sr = Some(48000);
    info.audio_ch = None;
    info.audio_codec = Some("aac".to_string());
    assert!(matches!(validate(&info), Err(ProbeError::MissingData(_))));
}

#[test]
fn no_audio_is_valid() {
    let mut info = valid_info();
    info.audio_sr = None;
    info.audio_ch = None;
    info.audio_codec = None;
    assert!(validate(&info).is_ok());
}

#[test]
fn sample_rate_range() {
    let mut info = valid_info();
    for sr in [8000, 192_000] {
        info.audio_sr = Some(sr);
        assert!(validate(&info).is_ok());
    }
    for sr in [0, 7999, 192_001] {
        info.audio_sr = Some(sr);
        match validate(&info) {
            Err(ProbeError::MissingData(text)) => {
                assert_eq!(text, "audio sample rate out of valid range (8000–192000 Hz)")
            }
            other => panic!("{other:?}"),
        }
    }
    info.audio_sr = None;
    match validate(&info) {
        Err(ProbeError::MissingData(text)) => assert_eq!(
            text,
            "audio fields incomplete: audio_sr, audio_ch, and audio_codec must all be present or all absent"
        ),
        other => panic!("{other:?}"),
    }
}

#[test]
fn file_size_of_zero_is_accepted() {
    let mut info = valid_info();
    info.file_size = 0;
    assert!(validate(&info).is_ok());
}

#[test]
fn first_failure_counts() {
    let mut info = valid_info();
    info.resolution = (0, 0);
    info.fps = Fraction::new(0, 0);
    info.video_codec = "rv40".to_string();
    assert!(matches!(validate(&info), Err(ProbeError::InvalidResolution { .. })));
    info.duration = number(0.0);
    assert!(matches!(validate(&info), Err(ProbeError::InvalidDuration { .. })));
}

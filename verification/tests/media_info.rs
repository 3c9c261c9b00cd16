use media_probe::binary64::Binary64;
use media_probe::media_info::{Fraction, MediaInfo};
use std::path::PathBuf;

fn number(x: f64) -> Binary64 {
    Binary64::from_bits(x.to_bits())
}

fn info() -> MediaInfo {
    MediaInfo {
        path: PathBuf::from("/tmp/test.mp4"),
        duration: number(10.0),
        fps: Fraction::default(),
        resolution: (1920, 1080),
        video_codec: "h264".to_string(),
        pixel_fmt: "yuv420p".to_string(),
        audio_sr: Some(48000),
        audio_ch: Some(2),
        audio_codec: Some("aac".to_string()),
        keyframes: vec![number(1.0), number(2.0), number(4.0)],
        file_size: 1024,
    }
}

#[test]
fn default_frame_rate() {
    assert_eq!(Fraction::default(), Fraction::new(30, 1));
}

#[test]
fn validity_of_fractions() {
    assert!(Fraction::new(30000, 1001).is_valid());
    assert!(!Fraction::new(0, 1).is_valid());
    assert!(!Fraction::new(30, 0).is_valid());
}

#[test]
fn texts_of_fractions() {
    assert_eq!(Fraction::new(30000, 1001).to_text(), "30000/1001");
    assert_eq!(Fraction::new(0, 0).to_text(), "0/0");
    assert_eq!(Fraction::new(4294967295, 10).to_text(), "4294967295/10");
}

#[test]
fn fractions_as_numbers() {
    for (num, den) in [(30000u32, 1001u32), (1, 3), (2, 3), (4294967295, 7), (1, 4294967295), (0, 5), (24, 1)] {
        let x = num as f64 / den as f64;
        assert_eq!(Fraction::new(num, den).as_f64().bits, x.to_bits());
    }
    assert_eq!(info().fps_f64().bits, 30.0f64.to_bits());
}

#[test]
fn accessors() {
    let mut i = info();
    assert_eq!((i.width(), i.height()), (1920, 1080));
    assert!(i.has_audio());
    assert!(i.is_yuv420p());
    i.pixel_fmt = "YUV420P".to_string();
    i.audio_sr = None;
    assert!(!i.is_yuv420p());
    assert!(!i.has_audio());
}

fn nearest(i: &MediaInfo, ts: f64) -> f64 {
    f64::from_bits(i.nearest_keyframe_before(number(ts)).bits)
}

#[test]
fn nearest_keyframes() {
    let mut i = info();
    assert_eq!(nearest(&i, 0.5), 0.0);
    assert_eq!(nearest(&i, 1.0), 1.0);
    assert_eq!(nearest(&i, 3.999), 2.0);
    assert_eq!(nearest(&i, 100.0), 4.0);
    assert_eq!(nearest(&i, f64::INFINITY), 4.0);
    assert_eq!(nearest(&i, f64::NAN), 0.0);
    i.keyframes = vec![];
    assert_eq!(nearest(&i, 7.0), 0.0);
    i.keyframes = vec![number(-0.0)];
    assert_eq!(i.nearest_keyframe_before(number(0.0)).bits, (-0.0f64).to_bits());
}

#[test]
fn a_clone_is_the_same() {
    let i = info();
    let c = i.clone();
    assert_eq!(format!("{i:?}"), format!("{c:?}"));
}

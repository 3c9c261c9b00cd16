use media_probe::binary64::Binary64;
use media_probe::cache::ProbeCache;
use media_probe::media_info::{Fraction, MediaInfo};
use std::path::PathBuf;

fn number(x: f64) -> Binary64 {
    Binary64::from_bits(x.to_bits())
}

fn dummy_info(path: &str) -> MediaInfo {
    MediaInfo {
        path: PathBuf::from(path),
        duration: number(10.0),
        fps: Fraction::new(30, 1),
        resolution: (1920, 1080),
        video_codec: "h264".to_string(),
        pixel_fmt: "yuv420p".to_string(),
        audio_sr: Some(48000),
        audio_ch: Some(2),
        audio_codec: Some("aac".to_string()),
        keyframes: vec![number(0.0), number(2.0), number(4.0), number(6.0), number(8.0)],
        file_size: 1024,
    }
}

#[test]
fn insert_and_get_round_trip() {
    let mut cache = ProbeCache::new();
    let path = PathBuf::from("/nonexistent/test.mp4");
    let info = dummy_info("/nonexistent/test.mp4");

    assert!(cache.get(&path, None).is_none());
    assert_eq!(cache.len(), 0);

    cache.insert(&path, info.clone(), None);

    let result = cache.get(&path, None);
    assert!(result.is_some());
    assert_eq!(result.unwrap().video_codec, "h264");
    assert_eq!(cache.len(), 1);
}

#[test]
fn invalidate_removes_entry() {
    let mut cache = ProbeCache::new();
    let path = PathBuf::from("/nonexistent/clip.mp4");
    cache.insert(&path, dummy_info("/nonexistent/clip.mp4"), None);
    assert!(cache.get(&path, None).is_some());

    cache.invalidate(&path);
    assert!(cache.get(&path, None).is_none());
    assert_eq!(cache.len(), 0);
}

#[test]
fn clear_removes_all_entries() {
    let mut cache = ProbeCache::new();
    for i in 0..5 {
        let path = PathBuf::from(format!("/nonexistent/{i}.mp4"));
        cache.insert(&path, dummy_info(&format!("/nonexistent/{i}.mp4")), None);
    }
    assert_eq!(cache.len(), 5);
    cache.clear();
    assert_eq!(cache.len(), 0);
}

#[test]
fn get_or_probe_calls_fn_on_miss() {
    let mut cache = ProbeCache::new();
    let path = PathBuf::from("/nonexistent/lazy.mp4");
    let expected = dummy_info("/nonexistent/lazy.mp4");
    let expected_clone = expected.clone();

    let result: Result<MediaInfo, String> =
        cache.get_or_probe(&path, None, || Ok((expected_clone, None)));

    assert!(result.is_ok());
    assert_eq!(result.unwrap().duration.bits, expected.duration.bits);
    assert_eq!(cache.len(), 1);
}

#[test]
fn get_or_probe_does_not_call_fn_on_hit() {
    let mut cache = ProbeCache::new();
    let path = PathBuf::from("/nonexistent/cached.mp4");
    cache.insert(&path, dummy_info("/nonexistent/cached.mp4"), None);

    let mut called = false;
    let _: Result<MediaInfo, String> = cache.get_or_probe(&path, None, || {
        called = true;
        Ok((dummy_info("/nonexistent/cached.mp4"), None))
    });

    assert!(!called, "probe_fn should not be called on cache hit");
    assert_eq!(cache.len(), 1);
}

#[test]
fn a_failed_probe_is_not_kept() {
    let mut cache = ProbeCache::default();
    let path = PathBuf::from("/nonexistent/broken.mp4");
    let result: Result<MediaInfo, String> =
        cache.get_or_probe(&path, None, || Err("broken".to_string()));
    assert_eq!(result.unwrap_err(), "broken");
    assert!(cache.is_empty());
}

#[test]
fn a_changed_file_is_probed_again() {
    let mut cache = ProbeCache::new();
    let path = PathBuf::from("/media/a.mp4");
    cache.insert(&path, dummy_info("/media/a.mp4"), Some(100));
    assert!(cache.get(&path, Some(100)).is_some());
    assert!(cache.get(&path, None).is_some());
    assert!(cache.get(&path, Some(101)).is_none());
    assert!(!cache.contains(&path, Some(99)));
    assert_eq!(cache.len(), 1);

    let mut fresh = dummy_info("/media/a.mp4");
    fresh.file_size = 2048;
    let result: Result<MediaInfo, String> =
        cache.get_or_probe(&path, Some(101), || Ok((fresh, Some(101))));
    assert_eq!(result.unwrap().file_size, 2048);
    assert_eq!(cache.get(&path, Some(101)).unwrap().file_size, 2048);
    assert!(cache.get(&path, Some(100)).is_none());
    assert_eq!(cache.len(), 1);
}

#[test]
fn a_file_whose_time_was_unknown_is_probed_again() {
    let mut cache = ProbeCache::new();
    let path = PathBuf::from("/media/a.mp4");
    cache.insert(&path, dummy_info("/media/a.mp4"), None);
    assert!(cache.contains(&path, None));
    assert!(!cache.contains(&path, Some(5)));
    assert!(cache.get(&path, Some(5)).is_none());

    let mut again = dummy_info("/media/a.mp4");
    again.file_size = 2048;
    let result: Result<MediaInfo, String> =
        cache.get_or_probe(&path, Some(5), || Ok((again, Some(5))));
    assert_eq!(result.unwrap().file_size, 2048);
    assert_eq!(cache.get(&path, Some(5)).unwrap().file_size, 2048);
    assert_eq!(cache.len(), 1);
}

#[test]
fn what_a_probe_found_is_settled() {
    let mut cache = ProbeCache::new();
    let path = PathBuf::from("/media/a.mp4");
    let failed: Result<(MediaInfo, Option<u64>), String> = Err("broken".to_string());
    assert_eq!(cache.settle(&path, failed).unwrap_err(), "broken");
    assert!(cache.is_empty());
    let found: Result<(MediaInfo, Option<u64>), String> =
        Ok((dummy_info("/media/a.mp4"), Some(3)));
    assert_eq!(cache.settle(&path, found).unwrap().file_size, 1024);
    assert!(cache.contains(&path, Some(3)));
    assert!(!cache.contains(&path, Some(4)));
}

#[test]
fn spellings_of_a_path_share_an_entry() {
    let mut cache = ProbeCache::new();
    let path = PathBuf::from("/media/a.mp4");
    let other = PathBuf::from("/media//./a.mp4");
    assert_eq!(path, other);
    cache.insert(&path, dummy_info("/media/a.mp4"), None);
    let mut again = dummy_info("/media/a.mp4");
    again.file_size = 7;
    cache.insert(&other, again, None);
    assert_eq!(cache.len(), 1);
    assert_eq!(cache.get(&path, None).unwrap().file_size, 7);
    let paths = cache.cached_paths();
    assert_eq!(paths.len(), 1);
    assert_eq!(paths[0].to_str(), Some("/media/a.mp4"));
    assert!(!cache.contains(&PathBuf::from("/media/b.mp4"), None));
}

#[test]
fn other_entries_stay() {
    let mut cache = ProbeCache::new();
    for name in ["/a", "/b", "/c"] {
        cache.insert(&PathBuf::from(name), dummy_info(name), None);
    }
    cache.invalidate(&PathBuf::from("/b"));
    cache.invalidate(&PathBuf::from("/b"));
    assert_eq!(cache.len(), 2);
    assert_eq!(cache.get(&PathBuf::from("/a"), None).unwrap().path, PathBuf::from("/a"));
    assert_eq!(cache.get(&PathBuf::from("/c"), None).unwrap().path, PathBuf::from("/c"));
    let mut paths = cache.cached_paths();
    paths.sort();
    assert_eq!(paths, [PathBuf::from("/a"), PathBuf::from("/c")]);
    assert!(!cache.is_empty());
}
